//! What a launch of the program does: the command line, and an activation.

use crate::paths::{path_join, System};
use crate::text::{chars_of, same_text, starts_at};
use vstd::prelude::*;

verus! {

/// What a command line asks for.
#[derive(Debug, Clone)]
pub enum Launch {
    /// The screen recorder.
    RecordGif,
    /// The comparison of two files.
    Compare { before: String, after: String },
    /// A comparison without its two files.
    CompareUsage,
    /// The main window.
    Activate,
}

pub enum LaunchView {
    RecordGif,
    Compare(Seq<char>, Seq<char>),
    CompareUsage,
    Activate,
}

impl View for Launch {
    type V = LaunchView;

    open spec fn view(&self) -> LaunchView {
        match self {
            Launch::RecordGif => LaunchView::RecordGif,
            Launch::Compare { before, after } => LaunchView::Compare(before@, after@),
            Launch::CompareUsage => LaunchView::CompareUsage,
            Launch::Activate => LaunchView::Activate,
        }
    }
}

/// The place of the first argument from `i` on that is `flag`.
pub open spec fn flag_place(args: Seq<Seq<char>>, flag: Seq<char>, i: int) -> Option<int>
    decreases args.len() - i,
{
    if i < 0 || i >= args.len() {
        None
    } else if args[i] == flag {
        Some(i)
    } else {
        flag_place(args, flag, i + 1)
    }
}

/// The arguments from `i` on that are no flags.
pub open spec fn plain_args(args: Seq<Seq<char>>, i: int) -> Seq<Seq<char>>
    decreases args.len() - i,
{
    if i < 0 || i >= args.len() {
        Seq::empty()
    } else if crate::text::has_prefix(args[i], "--"@) {
        plain_args(args, i + 1)
    } else {
        seq![args[i]] + plain_args(args, i + 1)
    }
}

/// A path from the command line, seen from the caller's directory.
pub open spec fn resolved(cwd: Option<Seq<char>>, arg: Seq<char>, system: System) -> Seq<char> {
    match cwd {
        Some(dir) => crate::paths::joined_path(dir, arg, system),
        None => arg,
    }
}

/// What the arguments behind the program's name ask for. The recorder comes first; a
/// comparison takes the first two arguments behind its flag that are no flags.
pub open spec fn launch(
    args: Seq<Seq<char>>,
    cwd: Option<Seq<char>>,
    system: System,
) -> LaunchView {
    if flag_place(args, "--record-gif"@, 0) is Some {
        LaunchView::RecordGif
    } else {
        match flag_place(args, "--compare"@, 0) {
            Some(p) => {
                let files = plain_args(args, p + 1);
                if files.len() >= 2 {
                    LaunchView::Compare(
                        resolved(cwd, files[0], system),
                        resolved(cwd, files[1], system),
                    )
                } else {
                    LaunchView::CompareUsage
                }
            },
            None => LaunchView::Activate,
        }
    }
}

fn find_flag(args: &Vec<String>, flag: &str) -> (r: Option<usize>)
    ensures
        match r {
            Some(i) => i < args@.len() && flag_place(crate::text::texts(args@), flag@, 0) == Some(
                i as int,
            ),
            None => flag_place(crate::text::texts(args@), flag@, 0) is None,
        },
{
    let ghost all = crate::text::texts(args@);
    let mut i: usize = 0;
    while i < args.len()
        invariant
            i <= args@.len(),
            all == crate::text::texts(args@),
            flag_place(all, flag@, 0) == flag_place(all, flag@, i as int),
        decreases args@.len() - i,
    {
        assert(all[i as int] == args@[i as int]@);
        if same_text(args[i].as_str(), flag) {
            return Some(i);
        }
        i += 1;
    }
    None
}

/// A path from the command line, seen from the caller's directory. A path from the root
/// stays as it is.
pub fn resolve_path(cwd: &Option<String>, arg: &str, system: System) -> (r: String)
    ensures
        r@ == resolved(crate::canvas::optional_text(*cwd), arg@, system),
{
    match cwd {
        Some(dir) => path_join(dir.as_str(), arg, system),
        None => arg.to_owned(),
    }
}

/// The first argument from `from` on that is no flag.
fn next_plain(args: &Vec<String>, from: usize) -> (r: Option<usize>)
    requires
        from <= args@.len(),
    ensures
        match r {
            Some(i) => from <= i < args@.len() && plain_args(
                crate::text::texts(args@),
                from as int,
            ) == seq![args@[i as int]@] + plain_args(crate::text::texts(args@), i + 1),
            None => plain_args(crate::text::texts(args@), from as int).len() == 0,
        },
{
    let ghost all = crate::text::texts(args@);
    let dashes = chars_of("--");
    let mut i: usize = from;
    while i < args.len()
        invariant
            from <= i <= args@.len(),
            all == crate::text::texts(args@),
            dashes@ == "--"@,
            plain_args(all, from as int) == plain_args(all, i as int),
        decreases args@.len() - i,
    {
        assert(all[i as int] == args@[i as int]@);
        if !starts_at(&chars_of(args[i].as_str()), 0, &dashes) {
            return Some(i);
        }
        i += 1;
    }
    None
}

/// What the arguments behind the program's name ask for.
pub fn command_line(args: &Vec<String>, cwd: &Option<String>, system: System) -> (r: Launch)
    ensures
        r@ == launch(crate::text::texts(args@), crate::canvas::optional_text(*cwd), system),
{
    if find_flag(args, "--record-gif").is_some() {
        return Launch::RecordGif;
    }
    let n: usize = args.len();
    match find_flag(args, "--compare") {
        Some(p) => {
            let ghost files = plain_args(crate::text::texts(args@), p + 1);
            assert(p < n);
            match next_plain(args, p + 1) {
                Some(a) => {
                    assert(a < n);
                    match next_plain(args, a + 1) {
                        Some(b) => {
                            assert(files[0] == args@[a as int]@);
                            assert(files[1] == args@[b as int]@);
                            Launch::Compare {
                                before: resolve_path(cwd, args[a].as_str(), system),
                                after: resolve_path(cwd, args[b].as_str(), system),
                            }
                        },
                        None => Launch::CompareUsage,
                    }
                },
                None => Launch::CompareUsage,
            }
        },
        None => Launch::Activate,
    }
}

/// What an activation does.
#[derive(Debug, Clone, Copy, PartialEq, Eq, Structural)]
pub enum Activation {
    /// It makes the window.
    Build,
    /// It hides the window.
    Hide,
    /// It brings the window to the front.
    Present,
}

/// What an activation does to the window.
pub open spec fn activated(there: bool, alive: bool, visible: bool, toggles: bool) -> Activation {
    if !there || !alive {
        Activation::Build
    } else if toggles && visible {
        Activation::Hide
    } else {
        Activation::Present
    }
}

/// An activation makes the window where there is none, or only a destroyed one. With
/// `toggles`, a visible window is hidden; without, it is always brought to the front.
pub fn activation(there: bool, alive: bool, visible: bool, toggles: bool) -> (r: Activation)
    ensures
        r == activated(there, alive, visible, toggles),
{
    if !there || !alive {
        Activation::Build
    } else if toggles && visible {
        Activation::Hide
    } else {
        Activation::Present
    }
}

// ───────────────────────────── laws ─────────────────────────────
/// An activation never makes a second window, hides only a visible one and only where it
/// toggles, and otherwise brings the window to the front. So where it toggles, two of them
/// lead back.
pub proof fn law_activations_toggle(there: bool, alive: bool, visible: bool, toggles: bool)
    ensures
        activated(there, alive, visible, toggles) is Build <==> !(there && alive),
        activated(there, alive, visible, toggles) is Hide <==> there && alive && visible && toggles,
        activated(true, true, true, true) is Hide && activated(true, true, false, true) is Present,
{
}

proof fn lemma_flag_place(args: Seq<Seq<char>>, flag: Seq<char>, i: int)
    requires
        0 <= i,
    ensures
        match flag_place(args, flag, i) {
            Some(k) => i <= k < args.len() && args[k] == flag && forall|j: int|
                i <= j < k ==> #[trigger] args[j] != flag,
            None => forall|j: int| i <= j < args.len() ==> #[trigger] args[j] != flag,
        },
    decreases args.len() - i,
{
    if i < args.len() && args[i] != flag {
        lemma_flag_place(args, flag, i + 1);
    }
}

/// What a command line asks for: the recorder where `--record-gif` is anywhere in it, a
/// comparison where `--compare` is, and otherwise the window.
pub proof fn law_flags_say_what_is_asked_for(args: Seq<Seq<char>>, cwd: Option<Seq<char>>, system: System)
    ensures
        launch(args, cwd, system) is RecordGif <==> args.contains("--record-gif"@),
        launch(args, cwd, system) is Activate <==> !args.contains("--record-gif"@)
            && !args.contains("--compare"@),
{
    lemma_flag_place(args, "--record-gif"@, 0);
    lemma_flag_place(args, "--compare"@, 0);
    if args.contains("--record-gif"@) {
        let i = choose|i: int| 0 <= i < args.len() && args[i] == "--record-gif"@;
        assert(args[i] == "--record-gif"@);
    }
    if args.contains("--compare"@) {
        let i = choose|i: int| 0 <= i < args.len() && args[i] == "--compare"@;
        assert(args[i] == "--compare"@);
    }
    if let Some(k) = flag_place(args, "--record-gif"@, 0) {
        assert(args.contains(args[k]));
    }
    if let Some(k) = flag_place(args, "--compare"@, 0) {
        assert(args.contains(args[k]));
    }
}

/// Whether an argument is a flag.
pub open spec fn is_flag(arg: Seq<char>) -> bool {
    arg.len() >= 2 && arg[0] == '-' && arg[1] == '-'
}

proof fn lemma_plain_args(args: Seq<Seq<char>>, i: int, k: int)
    requires
        0 <= i <= k <= args.len(),
        forall|j: int| i <= j < k ==> is_flag(#[trigger] args[j]),
    ensures
        plain_args(args, i) == plain_args(args, k),
        k < args.len() && !is_flag(args[k]) ==> plain_args(args, k) == seq![args[k]] + plain_args(
            args,
            k + 1,
        ),
    decreases k - i,
{
    reveal_strlit("--");
    assert forall|j: int| 0 <= j < args.len() implies (is_flag(#[trigger] args[j])
        <==> crate::text::has_prefix(args[j], "--"@)) by {
        let a = args[j];
        if a.len() >= 2 {
            assert(a.subrange(0, 2)[0] == a[0] && a.subrange(0, 2)[1] == a[1]);
            if is_flag(a) {
                assert(a.subrange(0, 2) =~= "--"@);
            }
        }
    }
    if i < k {
        lemma_plain_args(args, i + 1, k);
        assert(is_flag(args[i]));
    }
}

/// A comparison takes the first two files behind its flag, in their order, and passes over
/// other flags. A file is seen from the caller's directory.
pub proof fn law_comparisons_take_two_files(
    args: Seq<Seq<char>>,
    cwd: Option<Seq<char>>,
    system: System,
    p: int,
    a: int,
    b: int,
)
    requires
        0 <= p < a < b < args.len(),
        !args.contains("--record-gif"@),
        args[p] == "--compare"@,
        forall|j: int| 0 <= j < p ==> #[trigger] args[j] != "--compare"@,
        forall|j: int| p < j < a ==> is_flag(#[trigger] args[j]),
        !is_flag(args[a]),
        forall|j: int| a < j < b ==> is_flag(#[trigger] args[j]),
        !is_flag(args[b]),
    ensures
        launch(args, cwd, system) == LaunchView::Compare(
            match cwd {
                Some(dir) => crate::paths::joined_path(dir, args[a], system),
                None => args[a],
            },
            match cwd {
                Some(dir) => crate::paths::joined_path(dir, args[b], system),
                None => args[b],
            },
        ),
{
    law_flags_say_what_is_asked_for(args, cwd, system);
    lemma_flag_place(args, "--record-gif"@, 0);
    lemma_flag_place(args, "--compare"@, 0);
    if let Some(k) = flag_place(args, "--record-gif"@, 0) {
        assert(args.contains(args[k]));
    }
    assert(flag_place(args, "--compare"@, 0) == Some(p)) by {
        match flag_place(args, "--compare"@, 0) {
            Some(k) => {
                assert(args[k] == "--compare"@);
                assert(args[p] == "--compare"@);
            },
            None => {
                assert(args[p] != "--compare"@);
            },
        }
    }
    lemma_plain_args(args, p + 1, a);
    lemma_plain_args(args, a + 1, b);
    let files = plain_args(args, p + 1);
    let rest = plain_args(args, b + 1);
    assert(files =~= seq![args[a]] + (seq![args[b]] + rest));
    assert(files[0] == args[a] && files[1] == args[b]);
}

}
