//! Where the helper programs and the output folder are looked for, and which hit counts.
//!
//! A place is of any type: the functions only choose among places whose existence the caller has
//! looked up.

use vstd::prelude::*;

use crate::text::{
    has_prefix, is_blank, is_white, law_trimming_keeps_the_core, starts_with, trim, trimmed,
};

verus! {

/// A directory below which a program is looked for.
#[derive(Clone, Copy, Debug, PartialEq, Eq, Structural)]
pub enum ToolBase {
    /// The directory above the one that holds the sources.
    Sources,
    /// The current directory.
    Current,
    /// The directory of the application's resources.
    Resources,
    /// The directory that holds the running program.
    Program,
}

/// The name of yt-dlp's program file.
pub open spec fn yt_dlp_name(windows: bool) -> Seq<char> {
    if windows {
        "yt-dlp.exe"@
    } else {
        "yt-dlp"@
    }
}

/// A candidate: the directory and the steps that lead from it to the file.
pub open spec fn candidate_view(candidate: (ToolBase, Vec<String>)) -> (ToolBase, Seq<Seq<char>>) {
    (candidate.0, candidate.1.deep_view())
}

/// Where yt-dlp is looked for, the first place first, given which directories are known.
pub open spec fn yt_dlp_places(
    windows: bool,
    sources: bool,
    current: bool,
    resources: bool,
    program: bool,
) -> Seq<(ToolBase, Seq<Seq<char>>)> {
    let name = yt_dlp_name(windows);
    let nested = seq!["tools"@, name];
    let none = Seq::<(ToolBase, Seq<Seq<char>>)>::empty();
    (if sources {
        seq![(ToolBase::Sources, nested)]
    } else {
        none
    }) + (if current {
        seq![(ToolBase::Current, nested)]
    } else {
        none
    }) + (if resources {
        seq![(ToolBase::Resources, nested), (ToolBase::Resources, seq![name])]
    } else {
        none
    }) + (if program {
        seq![(ToolBase::Program, nested), (ToolBase::Program, seq![name])]
    } else {
        none
    })
}

spec fn candidates_view(candidates: Seq<(ToolBase, Vec<String>)>) -> Seq<(ToolBase, Seq<Seq<char>>)> {
    candidates.map_values(|c: (ToolBase, Vec<String>)| candidate_view(c))
}

fn push_place(
    candidates: &mut Vec<(ToolBase, Vec<String>)>,
    base: ToolBase,
    in_tools: bool,
    name: &str,
)
    ensures
        candidates_view(final(candidates)@) == candidates_view(old(candidates)@).push(
            (
                base,
                if in_tools {
                    seq!["tools"@, name@]
                } else {
                    seq![name@]
                },
            ),
        ),
{
    let mut parts: Vec<String> = Vec::new();
    if in_tools {
        parts.push("tools".to_string());
    }
    parts.push(name.to_string());
    let ghost steps = if in_tools {
        seq!["tools"@, name@]
    } else {
        seq![name@]
    };
    assert(parts.deep_view() =~= steps);
    candidates.push((base, parts));
    assert(candidates_view(candidates@) =~= candidates_view(old(candidates)@).push((base, steps)));
}

/// Where yt-dlp is looked for, the first place first, given which directories are known.
pub fn yt_dlp_candidates(
    windows: bool,
    sources: bool,
    current: bool,
    resources: bool,
    program: bool,
) -> (candidates: Vec<(ToolBase, Vec<String>)>)
    ensures
        candidates@.len() == yt_dlp_places(windows, sources, current, resources, program).len(),
        forall|i: int|
            0 <= i < candidates@.len() ==> candidate_view(#[trigger] candidates@[i])
                == yt_dlp_places(windows, sources, current, resources, program)[i],
{
    let name = if windows {
        "yt-dlp.exe"
    } else {
        "yt-dlp"
    };
    let mut candidates: Vec<(ToolBase, Vec<String>)> = Vec::new();
    if sources {
        push_place(&mut candidates, ToolBase::Sources, true, name);
    }
    if current {
        push_place(&mut candidates, ToolBase::Current, true, name);
    }
    if resources {
        push_place(&mut candidates, ToolBase::Resources, true, name);
        push_place(&mut candidates, ToolBase::Resources, false, name);
    }
    if program {
        push_place(&mut candidates, ToolBase::Program, true, name);
        push_place(&mut candidates, ToolBase::Program, false, name);
    }
    assert(candidates_view(candidates@) =~= yt_dlp_places(
        windows,
        sources,
        current,
        resources,
        program,
    ));
    assert forall|i: int| 0 <= i < candidates@.len() implies candidate_view(
        #[trigger] candidates@[i],
    ) == yt_dlp_places(windows, sources, current, resources, program)[i] by {
        assert(candidates_view(candidates@)[i] == candidate_view(candidates@[i]));
    }
    candidates
}

/// The first of the places, from `i` on, that exists.
pub open spec fn existing_from<P>(places: Seq<(P, bool)>, i: int) -> Option<P>
    decreases places.len() - i,
{
    if i >= places.len() {
        None
    } else if places[i].1 {
        Some(places[i].0)
    } else {
        existing_from(places, i + 1)
    }
}

/// The first of the places that exists.
pub open spec fn first_existing<P>(places: Seq<(P, bool)>) -> Option<P> {
    existing_from(places, 0)
}

fn existing_index<P>(places: &Vec<(P, bool)>) -> (index: Option<usize>)
    ensures
        match index {
            Some(i) => i < places@.len() && first_existing(places@) == Some(places@[i as int].0),
            None => first_existing(places@) is None,
        },
{
    let mut i: usize = 0;
    while i < places.len()
        invariant
            i <= places@.len(),
            first_existing(places@) == existing_from(places@, i as int),
        decreases places@.len() - i,
    {
        if places[i].1 {
            return Some(i);
        }
        i += 1;
    }
    None
}

/// Picks the first of the places that exists.
pub fn pick_existing<P>(places: Vec<(P, bool)>) -> (place: Option<P>)
    ensures
        place == first_existing(places@),
{
    let mut places = places;
    match existing_index(&places) {
        Some(i) => {
            let (place, _) = places.remove(i);
            Some(place)
        },
        None => None,
    }
}

/// What a user is told where yt-dlp is not found.
pub open spec fn yt_dlp_missing_message() -> Seq<char> {
    "No encontré yt-dlp. Dejalo en tools\\yt-dlp.exe o instalalo en el PATH."@
}

/// Picks yt-dlp: the first candidate that exists, else the one on the search path.
pub fn locate_yt_dlp<P>(candidates: Vec<(P, bool)>, on_path: Option<P>) -> (place: Result<
    P,
    String,
>)
    ensures
        match (first_existing(candidates@), on_path) {
            (Some(p), _) => place == Ok::<P, String>(p),
            (None, Some(p)) => place == Ok::<P, String>(p),
            (None, None) => place matches Err(message) && message@ == yt_dlp_missing_message(),
        },
{
    match pick_existing(candidates) {
        Some(place) => Ok(place),
        None => match on_path {
            Some(place) => Ok(place),
            None => Err(
                "No encontré yt-dlp. Dejalo en tools\\yt-dlp.exe o instalalo en el PATH.".to_string(),
            ),
        },
    }
}

/// Picks node: the one on the search path, else the installed one where it exists.
pub fn locate_node<P>(on_path: Option<P>, installed: Option<(P, bool)>) -> (place: Option<P>)
    ensures
        place == match on_path {
            Some(p) => Some(p),
            None => match installed {
                Some((p, true)) => Some(p),
                _ => None,
            },
        },
{
    match on_path {
        Some(place) => Some(place),
        None => match installed {
            Some((place, exists)) => if exists {
                Some(place)
            } else {
                None
            },
            None => None,
        },
    }
}

/// Picks ffmpeg: the one on the search path, else the packaged one.
pub fn locate_ffmpeg<P>(on_path: Option<P>, packaged: Option<P>) -> (place: Option<P>)
    ensures
        place == match on_path {
            Some(p) => Some(p),
            None => packaged,
        },
{
    match on_path {
        Some(place) => Some(place),
        None => packaged,
    }
}

/// The directory that yt-dlp is told to look for ffmpeg in: the one that holds the program, or the
/// program itself where it has no parent.
pub fn ffmpeg_directory<P>(program: P, parent: Option<P>) -> (place: P)
    ensures
        place == match parent {
            Some(directory) => directory,
            None => program,
        },
{
    match parent {
        Some(directory) => directory,
        None => program,
    }
}

/// Picks the Edge browser: the first candidate that exists.
pub fn locate_edge<P>(candidates: Vec<(P, bool)>) -> (place: Option<P>)
    ensures
        place == first_existing(candidates@),
{
    pick_existing(candidates)
}

/// An installed package: its folder's name, and the program's place in each distribution of it,
/// or none where the folder cannot be read.
#[derive(Debug)]
pub struct WingetPackage<P> {
    pub name: String,
    pub distributions: Option<Vec<(P, bool)>>,
}

/// The program in the first package, from `i` on, that is named by `prefix` and has it. A package
/// so named that cannot be read ends the search.
pub open spec fn packaged_from<P>(
    packages: Seq<WingetPackage<P>>,
    prefix: Seq<char>,
    i: int,
) -> Option<P>
    decreases packages.len() - i,
{
    if i >= packages.len() {
        None
    } else if !has_prefix(packages[i].name@, prefix) {
        packaged_from(packages, prefix, i + 1)
    } else {
        match packages[i].distributions {
            None => None,
            Some(places) => match first_existing(places@) {
                Some(place) => Some(place),
                None => packaged_from(packages, prefix, i + 1),
            },
        }
    }
}

/// Picks the program in the first package that is named by `package_prefix` and has it.
pub fn locate_winget_binary<P>(packages: Vec<WingetPackage<P>>, package_prefix: &str) -> (place:
    Option<P>)
    ensures
        place == packaged_from(packages@, package_prefix@, 0),
{
    let ghost all = packages@;
    let mut rest = packages;
    let mut i: usize = 0;
    while i < rest.len()
        invariant
            rest@ == all,
            packages@ == all,
            i <= all.len(),
            packaged_from(all, package_prefix@, 0) == packaged_from(
                all,
                package_prefix@,
                i as int,
            ),
        decreases all.len() - i,
    {
        if starts_with(rest[i].name.as_str(), package_prefix) {
            let hit = match &rest[i].distributions {
                None => return None,
                Some(places) => existing_index(places),
            };
            if let Some(k) = hit {
                let package = rest.remove(i);
                return match package.distributions {
                    Some(mut places) => {
                        let (place, _) = places.remove(k);
                        Some(place)
                    },
                    None => None,
                };
            }
        }
        i += 1;
    }
    None
}

/// The folder for downloads, as the steps that lead to it: below the user's profile folder, else
/// below the home folder.
pub open spec fn default_output_steps(
    user_profile: Option<Seq<char>>,
    home: Option<Seq<char>>,
) -> Option<Seq<Seq<char>>> {
    match (user_profile, home) {
        (Some(base), _) => Some(seq![base, "Downloads"@, "Descargador A1"@]),
        (None, Some(base)) => Some(seq![base, "Downloads"@, "Descargador A1"@]),
        (None, None) => None,
    }
}

/// The folder for downloads, as the steps that lead to it.
pub fn default_output_dir(user_profile: Option<String>, home: Option<String>) -> (steps: Option<
    Vec<String>,
>)
    ensures
        steps.deep_view() == default_output_steps(user_profile.deep_view(), home.deep_view()),
{
    let base = match user_profile {
        Some(base) => base,
        None => match home {
            Some(base) => base,
            None => return None,
        },
    };
    let mut steps: Vec<String> = Vec::new();
    let ghost start = base@;
    steps.push(base);
    steps.push("Downloads".to_string());
    steps.push("Descargador A1".to_string());
    assert(steps.deep_view() =~= seq![start, "Downloads"@, "Descargador A1"@]);
    Some(steps)
}

/// The folder that a user asks for, without the white space around it, else the default one.
pub open spec fn output_dir(
    requested: Option<Seq<char>>,
    default: Option<Seq<char>>,
) -> Option<Seq<char>> {
    match requested {
        Some(text) => if trimmed(text).len() > 0 {
            Some(trimmed(text))
        } else {
            default
        },
        None => default,
    }
}

/// The folder that a user asks for, else the default one.
pub fn normalize_output_dir(output_dir: Option<String>, default: Option<String>) -> (result: Result<
    Option<String>,
    String,
>)
    ensures
        result matches Ok(dir) && dir.deep_view() == self::output_dir(
            output_dir.deep_view(),
            default.deep_view(),
        ),
{
    let raw = match output_dir {
        Some(raw) => raw,
        None => return Ok(default),
    };
    let dir = trim(raw.as_str());
    if dir.as_str().is_empty() {
        return Ok(default);
    }
    Ok(Some(dir))
}

proof fn lemma_existing_from<P>(places: Seq<(P, bool)>, from: int)
    requires
        0 <= from,
    ensures
        match existing_from(places, from) {
            Some(place) => exists|i: int|
                from <= i < places.len() && #[trigger] places[i] == (place, true) && forall|j: int|
                    from <= j < i ==> !(#[trigger] places[j]).1,
            None => forall|j: int| from <= j < places.len() ==> !(#[trigger] places[j]).1,
        },
    decreases places.len() - from,
{
    if from < places.len() {
        if places[from].1 {
            assert(places[from] == (places[from].0, true));
        } else {
            lemma_existing_from(places, from + 1);
            if let Some(place) = existing_from(places, from + 1) {
                let i = choose|i: int|
                    from + 1 <= i < places.len() && #[trigger] places[i] == (place, true)
                        && forall|j: int| from + 1 <= j < i ==> !(#[trigger] places[j]).1;
                assert(places[i] == (place, true));
            }
        }
    }
}

/// The place that is taken is the first that exists, and there is none where none exists; of
/// yt-dlp the user is then told where to put it.
pub proof fn law_first_existing<P>(places: Seq<(P, bool)>)
    ensures
        match first_existing(places) {
            Some(place) => exists|i: int|
                0 <= i < places.len() && #[trigger] places[i] == (place, true) && forall|j: int|
                    0 <= j < i ==> !(#[trigger] places[j]).1,
            None => forall|j: int| 0 <= j < places.len() ==> !(#[trigger] places[j]).1,
        },
        yt_dlp_missing_message()
            == "No encontré yt-dlp. Dejalo en tools\\yt-dlp.exe o instalalo en el PATH."@,
{
    lemma_existing_from(places, 0);
}

/// yt-dlp is looked for in the directory `tools` of each place that is known, and with the
/// resources and the program also right there: the sources first, then the current directory, the
/// resources and the program.
pub proof fn law_yt_dlp_places(
    windows: bool,
    sources: bool,
    current: bool,
    resources: bool,
    program: bool,
)
    ensures
        ({
            let name = if windows {
                "yt-dlp.exe"@
            } else {
                "yt-dlp"@
            };
            let places = yt_dlp_places(windows, sources, current, resources, program);
            let nested = seq!["tools"@, name];
            let s: int = if sources {
                1
            } else {
                0
            };
            let c: int = s + if current {
                1int
            } else {
                0
            };
            let r: int = c + if resources {
                2int
            } else {
                0
            };
            let p: int = r + if program {
                2int
            } else {
                0
            };
            &&& places.len() == p
            &&& sources ==> places[0] == (ToolBase::Sources, nested)
            &&& current ==> places[s] == (ToolBase::Current, nested)
            &&& resources ==> places[c] == (ToolBase::Resources, nested) && places[c + 1] == (
                ToolBase::Resources,
                seq![name],
            )
            &&& program ==> places[r] == (ToolBase::Program, nested) && places[r + 1] == (
                ToolBase::Program,
                seq![name],
            )
        }),
{
}

/// A packaged program is found in the first package of that name that has it; packages of other
/// names make no difference, and one of that name that cannot be read ends the search.
pub proof fn law_packages<P>(
    packages: Seq<WingetPackage<P>>,
    package: WingetPackage<P>,
    prefix: Seq<char>,
)
    ensures
        ({
            let all = seq![package] + packages;
            &&& !has_prefix(package.name@, prefix) ==> packaged_from(all, prefix, 0)
                == packaged_from(packages, prefix, 0)
            &&& has_prefix(package.name@, prefix) ==> match package.distributions {
                None => packaged_from(all, prefix, 0) is None,
                Some(places) => match first_existing(places@) {
                    Some(place) => packaged_from(all, prefix, 0) == Some(place),
                    None => packaged_from(all, prefix, 0) == packaged_from(packages, prefix, 0),
                },
            }
        }),
        packages.len() == 0 ==> packaged_from(packages, prefix, 0) is None,
{
    let all = seq![package] + packages;
    assert(all[0] == package);
    lemma_packaged_shift(packages, package, prefix, 0);
}

proof fn lemma_packaged_shift<P>(
    packages: Seq<WingetPackage<P>>,
    package: WingetPackage<P>,
    prefix: Seq<char>,
    i: int,
)
    requires
        0 <= i,
    ensures
        packaged_from(seq![package] + packages, prefix, i + 1) == packaged_from(packages, prefix, i),
    decreases packages.len() - i,
{
    let all = seq![package] + packages;
    if i < packages.len() {
        assert(all[i + 1] == packages[i]);
        lemma_packaged_shift(packages, package, prefix, i + 1);
    }
}

/// Downloads go to the folder that the user names, without the white space around it; where the
/// user names none, to the standing folder below the home directory.
pub proof fn law_output_folders(
    left: Seq<char>,
    folder: Seq<char>,
    right: Seq<char>,
    default: Option<Seq<char>>,
    home: Seq<char>,
    other: Option<Seq<char>>,
)
    requires
        is_blank(left),
        is_blank(right),
        folder.len() > 0 ==> !is_white(folder[0]) && !is_white(folder.last()),
    ensures
        output_dir(Some(left + folder + right), default) == if folder.len() > 0 {
            Some(folder)
        } else {
            default
        },
        output_dir(None, default) == default,
        default_output_steps(Some(home), other) == Some(
            seq![home, "Downloads"@, "Descargador A1"@],
        ),
        default_output_steps(None, Some(home)) == Some(
            seq![home, "Downloads"@, "Descargador A1"@],
        ),
        default_output_steps(None, None) is None,
{
    law_trimming_keeps_the_core(left, folder, right);
}

} // verus!
