//! Command-line arguments and the numbers the reports print.
use vstd::prelude::*;
use crate::text::{chars_of, digits, decimal, push_int, push_char};
use crate::resources::chars_eq;
use crate::pack::{PackOptions, pack_view};

verus! {

/// A string argument's characters.
pub open spec fn arg_views(args: Seq<String>) -> Seq<Seq<char>> {
    args.map_values(|s: String| s@)
}

/// Whether an argument is exactly `lit`.
fn is_arg(a: &String, lit: &str) -> (r: bool)
    ensures
        r == (a@ == lit@),
{
    let x = chars_of(a.as_str());
    let y = chars_of(lit);
    chars_eq(&x, &y)
}

/// The settings of the transcoding commands, as the arguments give them.
/// The numbers stay text: the caller reads them (and falls back to the
/// defaults, a preroll of 3 seconds and 100 fps, where they do not read).
pub struct TranscodeArgs {
    /// `--userdata`
    pub keep_userdata: bool,
    /// Cleared by `--no-rebase`.
    pub rebase_time: bool,
    /// The argument after the last `--gamedir`, if there is one.
    pub gamedir: Option<String>,
    /// The argument after the last `--preroll`, if there is one.
    pub preroll: Option<String>,
    /// The argument after the last `--fps`, if there is one.
    pub fps: Option<String>,
}

/// What the arguments from `i` on set, on top of `(keep_userdata,
/// rebase_time, gamedir, preroll, fps)`. A flag that takes a value consumes
/// the next argument, and with none left sets `None`.
pub open spec fn transcode_args_from(
    args: Seq<Seq<char>>,
    i: int,
    st: (bool, bool, Option<Seq<char>>, Option<Seq<char>>, Option<Seq<char>>),
) -> (bool, bool, Option<Seq<char>>, Option<Seq<char>>, Option<Seq<char>>)
    decreases args.len() + 1 - i,
{
    if i < 0 || i >= args.len() {
        st
    } else {
        let a = args[i];
        let next = if i + 1 < args.len() {
            Some(args[i + 1])
        } else {
            None
        };
        if a == "--userdata"@ {
            transcode_args_from(args, i + 1, (true, st.1, st.2, st.3, st.4))
        } else if a == "--no-rebase"@ {
            transcode_args_from(args, i + 1, (st.0, false, st.2, st.3, st.4))
        } else if a == "--gamedir"@ {
            transcode_args_from(args, i + 2, (st.0, st.1, next, st.3, st.4))
        } else if a == "--preroll"@ {
            transcode_args_from(args, i + 2, (st.0, st.1, st.2, next, st.4))
        } else if a == "--fps"@ {
            transcode_args_from(args, i + 2, (st.0, st.1, st.2, st.3, next))
        } else {
            transcode_args_from(args, i + 1, st)
        }
    }
}

pub open spec fn opt_view(o: Option<String>) -> Option<Seq<char>> {
    match o {
        Some(s) => Some(s@),
        None => None,
    }
}

fn next_arg(args: &Vec<String>, i: usize) -> (r: Option<String>)
    ensures
        opt_view(r) == if i + 1 < args@.len() {
            Some(args@[i + 1]@)
        } else {
            None::<Seq<char>>
        },
{
    if i < args.len() && i + 1 < args.len() {
        Some(args[i + 1].clone())
    } else {
        None
    }
}

/// The position after a flag at `i` and its value, or the end when no
/// value follows.
fn skip_value(args: &Vec<String>, i: usize) -> (r: usize)
    requires
        i < args@.len(),
    ensures
        r == if i + 2 <= args@.len() {
            i + 2
        } else {
            args@.len() as int
        },
{
    if args.len() - i >= 2 {
        i + 2
    } else {
        args.len()
    }
}

/// The transcoding options that the arguments after the file names set.
pub fn parse_opts(args: &Vec<String>) -> (r: TranscodeArgs)
    ensures
        (r.keep_userdata, r.rebase_time, opt_view(r.gamedir), opt_view(r.preroll), opt_view(r.fps))
            == transcode_args_from(arg_views(args@), 0, (false, true, None, None, None)),
{
    let mut r = TranscodeArgs {
        keep_userdata: false,
        rebase_time: true,
        gamedir: None,
        preroll: None,
        fps: None,
    };
    let ghost all = arg_views(args@);
    let mut i: usize = 0;
    while i < args.len()
        invariant
            all == arg_views(args@),
            transcode_args_from(all, 0, (false, true, None, None, None)) == transcode_args_from(
                all,
                i as int,
                (r.keep_userdata, r.rebase_time, opt_view(r.gamedir), opt_view(r.preroll), opt_view(r.fps)),
            ),
        decreases args@.len() + 1 - i,
    {
        proof {
            assert(all[i as int] == args@[i as int]@);
            if i + 1 < args@.len() {
                assert(all[i + 1] == args@[i + 1]@);
            }
        }
        let a = &args[i];
        if is_arg(a, "--userdata") {
            r.keep_userdata = true;
        } else if is_arg(a, "--no-rebase") {
            r.rebase_time = false;
        } else if is_arg(a, "--gamedir") {
            let ghost st = (r.keep_userdata, r.rebase_time, opt_view(r.gamedir), opt_view(r.preroll), opt_view(r.fps));
            r.gamedir = next_arg(args, i);
            assert(transcode_args_from(all, i as int, st) == transcode_args_from(
                all,
                i + 2,
                (st.0, st.1, opt_view(r.gamedir), st.3, st.4),
            ));
            i = skip_value(args, i);
            continue;
        } else if is_arg(a, "--preroll") {
            let ghost st = (r.keep_userdata, r.rebase_time, opt_view(r.gamedir), opt_view(r.preroll), opt_view(r.fps));
            r.preroll = next_arg(args, i);
            assert(transcode_args_from(all, i as int, st) == transcode_args_from(
                all,
                i + 2,
                (st.0, st.1, st.2, opt_view(r.preroll), st.4),
            ));
            i = skip_value(args, i);
            continue;
        } else if is_arg(a, "--fps") {
            let ghost st = (r.keep_userdata, r.rebase_time, opt_view(r.gamedir), opt_view(r.preroll), opt_view(r.fps));
            r.fps = next_arg(args, i);
            assert(transcode_args_from(all, i as int, st) == transcode_args_from(
                all,
                i + 2,
                (st.0, st.1, st.2, st.3, opt_view(r.fps)),
            ));
            i = skip_value(args, i);
            continue;
        }
        i = i + 1;
    }
    r
}

/// The settings of `pack`, as the arguments give them.
pub open spec fn pack_args_from(
    args: Seq<Seq<char>>,
    i: int,
    st: (Seq<char>, Seq<char>, Seq<char>, bool, bool),
) -> (Seq<char>, Seq<char>, Seq<char>, bool, bool)
    decreases args.len() + 1 - i,
{
    if i < 0 || i >= args.len() {
        st
    } else {
        let a = args[i];
        if a == "--sound"@ {
            pack_args_from(args, i + 1, (st.0, st.1, st.2, true, st.4))
        } else if a == "--verbose"@ || a == "-v"@ {
            pack_args_from(args, i + 1, (st.0, st.1, st.2, st.3, true))
        } else if a == "--game-root"@ {
            pack_args_from(
                args,
                i + 2,
                (if i + 1 < args.len() { args[i + 1] } else { st.0 }, st.1, st.2, st.3, st.4),
            )
        } else if a == "--gamedir"@ {
            pack_args_from(
                args,
                i + 2,
                (st.0, if i + 1 < args.len() { args[i + 1] } else { st.1 }, st.2, st.3, st.4),
            )
        } else if a == "--fallback"@ {
            pack_args_from(
                args,
                i + 2,
                (st.0, st.1, if i + 1 < args.len() { args[i + 1] } else { st.2 }, st.3, st.4),
            )
        } else {
            pack_args_from(args, i + 1, st)
        }
    }
}


/// Whether an argument is an option of `pack` that takes the next one as
/// its value.
pub open spec fn takes_value(a: Seq<char>) -> bool {
    a == "--game-root"@ || a == "--gamedir"@ || a == "--fallback"@
}

/// From `i` on, with no option taking a value: the flags end up set exactly
/// when they were set already or one of the arguments names them.
proof fn lemma_pack_flags_from(
    args: Seq<Seq<char>>,
    i: int,
    st: (Seq<char>, Seq<char>, Seq<char>, bool, bool),
)
    requires
        0 <= i <= args.len(),
        forall|j: int| 0 <= j < args.len() ==> !takes_value(#[trigger] args[j]),
    ensures
        pack_args_from(args, i, st).4 == (st.4 || exists|j: int|
            i <= j < args.len() && (#[trigger] args[j] == "--verbose"@ || args[j] == "-v"@)),
        pack_args_from(args, i, st).3 == (st.3 || exists|j: int|
            i <= j < args.len() && #[trigger] args[j] == "--sound"@),
    decreases args.len() - i,
{
    reveal_strlit("--sound");
    reveal_strlit("--verbose");
    reveal_strlit("-v");
    if i < args.len() {
        let a = args[i];
        assert(!takes_value(a));
        let st2 = if a == "--sound"@ {
            (st.0, st.1, st.2, true, st.4)
        } else if a == "-v"@ || a == "--verbose"@ {
            (st.0, st.1, st.2, st.3, true)
        } else {
            st
        };
        assert(pack_args_from(args, i, st) == pack_args_from(args, i + 1, st2));
        lemma_pack_flags_from(args, i + 1, st2);
        assert("--sound"@.len() == 7 && "--verbose"@.len() == 9 && "-v"@.len() == 2);
        if a == "--sound"@ {
            assert(a != "--verbose"@ && a != "-v"@);
        }
        if a == "-v"@ || a == "--verbose"@ {
            assert(a != "--sound"@);
        }
    }
}

/// Once a flag is set, later arguments never clear it.
proof fn lemma_pack_flags_stay(
    args: Seq<Seq<char>>,
    i: int,
    st: (Seq<char>, Seq<char>, Seq<char>, bool, bool),
)
    ensures
        st.4 ==> pack_args_from(args, i, st).4,
        st.3 ==> pack_args_from(args, i, st).3,
    decreases args.len() + 1 - i,
{
    if 0 <= i < args.len() {
        let a = args[i];
        if a == "--sound"@ {
            lemma_pack_flags_stay(args, i + 1, (st.0, st.1, st.2, true, st.4));
        } else if a == "-v"@ || a == "--verbose"@ {
            lemma_pack_flags_stay(args, i + 1, (st.0, st.1, st.2, st.3, true));
        } else if a == "--game-root"@ {
            lemma_pack_flags_stay(
                args,
                i + 2,
                (if i + 1 < args.len() { args[i + 1] } else { st.0 }, st.1, st.2, st.3, st.4),
            );
        } else if a == "--gamedir"@ {
            lemma_pack_flags_stay(
                args,
                i + 2,
                (st.0, if i + 1 < args.len() { args[i + 1] } else { st.1 }, st.2, st.3, st.4),
            );
        } else if a == "--fallback"@ {
            lemma_pack_flags_stay(
                args,
                i + 2,
                (st.0, st.1, if i + 1 < args.len() { args[i + 1] } else { st.2 }, st.3, st.4),
            );
        } else {
            lemma_pack_flags_stay(args, i + 1, st);
        }
    }
}

/// The flags of `pack`: when no argument is an option taking a value,
/// `pack` is verbose exactly when `--verbose` or `-v` is among the
/// arguments, and takes sounds exactly when `--sound` is. And `--verbose`
/// or `--sound` first makes it verbose or take sounds, whatever follows.
pub proof fn law_pack_flags(args: Seq<Seq<char>>)
    ensures
        (forall|j: int| 0 <= j < args.len() ==> !takes_value(#[trigger] args[j])) ==> {
            &&& pack_args_from(args, 0, (Seq::<char>::empty(), "dod"@, "valve"@, false, false)).4
                == exists|j: int| 0 <= j < args.len() && (#[trigger] args[j] == "--verbose"@ || args[j] == "-v"@)
            &&& pack_args_from(args, 0, (Seq::<char>::empty(), "dod"@, "valve"@, false, false)).3
                == exists|j: int| 0 <= j < args.len() && #[trigger] args[j] == "--sound"@
        },
        args.len() > 0 && args[0] == "--verbose"@ ==> pack_args_from(
            args,
            0,
            (Seq::<char>::empty(), "dod"@, "valve"@, false, false),
        ).4,
        args.len() > 0 && args[0] == "--sound"@ ==> pack_args_from(
            args,
            0,
            (Seq::<char>::empty(), "dod"@, "valve"@, false, false),
        ).3,
{
    reveal_strlit("--sound");
    reveal_strlit("--verbose");
    let init = (Seq::<char>::empty(), "dod"@, "valve"@, false, false);
    if forall|j: int| 0 <= j < args.len() ==> !takes_value(#[trigger] args[j]) {
        lemma_pack_flags_from(args, 0, init);
    }
    if args.len() > 0 && args[0] == "--verbose"@ {
        assert("--sound"@.len() == 7 && "--verbose"@.len() == 9);
        assert(args[0] != "--sound"@);
        lemma_pack_flags_stay(args, 1, (init.0, init.1, init.2, init.3, true));
    }
    if args.len() > 0 && args[0] == "--sound"@ {
        lemma_pack_flags_stay(args, 1, (init.0, init.1, init.2, true, init.4));
    }
}

/// The `pack` options that the arguments after the file names set.
pub fn parse_pack_opts(args: &Vec<String>) -> (r: PackOptions)
    ensures
        pack_view(r) == pack_args_from(
            arg_views(args@),
            0,
            (Seq::<char>::empty(), "dod"@, "valve"@, false, false),
        ),
        (forall|j: int| 0 <= j < args@.len() ==> !takes_value(#[trigger] args@[j]@)) ==> (r.verbose
            <==> exists|j: int|
            0 <= j < args@.len() && (#[trigger] args@[j]@ == "--verbose"@ || args@[j]@ == "-v"@)),
        args@.len() > 0 && args@[0]@ == "--verbose"@ ==> r.verbose,
{
    proof {
        let all = arg_views(args@);
        law_pack_flags(all);
        assert forall|j: int| 0 <= j < args@.len() implies #[trigger] all[j] == args@[j]@ by {}
        if forall|j: int| 0 <= j < args@.len() ==> !takes_value(#[trigger] args@[j]@) {
            assert(forall|j: int| 0 <= j < all.len() ==> !takes_value(#[trigger] all[j]));
            if exists|j: int| 0 <= j < args@.len() && (#[trigger] args@[j]@ == "--verbose"@ || args@[j]@ == "-v"@) {
                let j = choose|j: int| 0 <= j < args@.len() && (#[trigger] args@[j]@ == "--verbose"@ || args@[j]@ == "-v"@);
                assert(all[j] == args@[j]@);
            }
            if exists|j: int| 0 <= j < all.len() && (#[trigger] all[j] == "--verbose"@ || all[j] == "-v"@) {
                let j = choose|j: int| 0 <= j < all.len() && (#[trigger] all[j] == "--verbose"@ || all[j] == "-v"@);
                assert(all[j] == args@[j]@);
            }
        }
    }
    let mut o = PackOptions::default();
    let ghost all = arg_views(args@);
    let mut i: usize = 0;
    while i < args.len()
        invariant
            all == arg_views(args@),
            pack_args_from(all, 0, (Seq::<char>::empty(), "dod"@, "valve"@, false, false))
                == pack_args_from(all, i as int, pack_view(o)),
        decreases args@.len() + 1 - i,
    {
        proof {
            assert(all[i as int] == args@[i as int]@);
            if i + 1 < args@.len() {
                assert(all[i + 1] == args@[i + 1]@);
            }
        }
        let a = &args[i];
        if is_arg(a, "--sound") {
            o.include_sound = true;
        } else if is_arg(a, "--verbose") || is_arg(a, "-v") {
            o.verbose = true;
        } else if is_arg(a, "--game-root") {
            let ghost st = pack_view(o);
            if let Some(v) = next_arg(args, i) {
                o.game_root = v;
            }
            assert(pack_args_from(all, i as int, st) == pack_args_from(all, i + 2, pack_view(o)));
            i = skip_value(args, i);
            continue;
        } else if is_arg(a, "--gamedir") {
            let ghost st = pack_view(o);
            if let Some(v) = next_arg(args, i) {
                o.gamedir = v;
            }
            assert(pack_args_from(all, i as int, st) == pack_args_from(all, i + 2, pack_view(o)));
            i = skip_value(args, i);
            continue;
        } else if is_arg(a, "--fallback") {
            let ghost st = pack_view(o);
            if let Some(v) = next_arg(args, i) {
                o.fallback = v;
            }
            assert(pack_args_from(all, i as int, st) == pack_args_from(all, i + 2, pack_view(o)));
            i = skip_value(args, i);
            continue;
        }
        i = i + 1;
    }
    o
}

// ---------------------------------------------------------------------------
// Numbers
// ---------------------------------------------------------------------------

/// Digits in groups of three from the right, joined by commas.
pub open spec fn group_thousands(d: Seq<char>) -> Seq<char>
    decreases d.len(),
{
    if d.len() <= 3 {
        d
    } else {
        group_thousands(d.take(d.len() - 3)) + seq![','] + d.skip(d.len() - 3)
    }
}

/// What the first `i` digits of `d` become when `d` is written in groups:
/// each digit, with a comma before it where a group starts.
pub open spec fn grouped_prefix(d: Seq<char>, i: int) -> Seq<char>
    decreases i,
{
    if i <= 0 {
        Seq::empty()
    } else {
        let prev = grouped_prefix(d, i - 1);
        let k = i - 1;
        if k > 0 && (d.len() - k) % 3 == 0 {
            prev + seq![',', d[k]]
        } else {
            prev.push(d[k])
        }
    }
}

proof fn lemma_grouped_prefix_take(d: Seq<char>, m: int, i: int)
    requires
        0 <= i <= m <= d.len(),
        (d.len() - m) % 3 == 0,
    ensures
        grouped_prefix(d, i) == grouped_prefix(d.take(m), i),
    decreases i,
{
    if i > 0 {
        lemma_grouped_prefix_take(d, m, i - 1);
        let k = i - 1;
        assert(d.take(m)[k] == d[k]);
        assert(((d.len() - k) % 3 == 0) == ((m - k) % 3 == 0));
    }
}

proof fn lemma_grouped_prefix(d: Seq<char>)
    ensures
        grouped_prefix(d, d.len() as int) == group_thousands(d),
    decreases d.len(),
{
    let n = d.len() as int;
    if n <= 3 {
        assert forall|i: int| 0 <= i <= n implies grouped_prefix(d, i) == d.take(i) by {
            lemma_grouped_prefix_small(d, i);
        }
        assert(d.take(n) =~= d);
    } else {
        let t = d.take(n - 3);
        lemma_grouped_prefix(t);
        lemma_grouped_prefix_take(d, n - 3, n - 3);
        let g = grouped_prefix(d, n - 3);
        assert(grouped_prefix(d, n - 2) == g + seq![',', d[n - 3]]);
        assert(grouped_prefix(d, n - 1) == grouped_prefix(d, n - 2).push(d[n - 2]));
        assert(grouped_prefix(d, n) == grouped_prefix(d, n - 1).push(d[n - 1]));
        assert(grouped_prefix(d, n) =~= g + seq![','] + d.skip(n - 3));
    }
}

proof fn lemma_grouped_prefix_small(d: Seq<char>, i: int)
    requires
        d.len() <= 3,
        0 <= i <= d.len(),
    ensures
        grouped_prefix(d, i) == d.take(i),
    decreases i,
{
    if i > 0 {
        lemma_grouped_prefix_small(d, i - 1);
        assert(d.take(i - 1).push(d[i - 1]) =~= d.take(i));
    } else {
        assert(d.take(0) =~= Seq::<char>::empty());
    }
}

/// A count with its digits in groups of three, joined by commas.
pub fn human(n: usize) -> (r: String)
    ensures
        r@ == group_thousands(digits(n as nat)),
{
    let mut s = String::new();
    push_int(&mut s, n as i128);
    let d = chars_of(s.as_str());
    let ghost dd = d@;
    let len = d.len();
    let mut out = String::new();
    let mut i: usize = 0;
    while i < len
        invariant
            i <= len,
            len == dd.len(),
            dd == d@,
            out@ == grouped_prefix(dd, i as int),
        decreases len - i,
    {
        if i > 0 && (len - i) % 3 == 0 {
            push_char(&mut out, ',');
        }
        push_char(&mut out, d[i]);
        proof {
            let prev = grouped_prefix(dd, i as int);
            if i > 0 && (len - i) % 3 == 0 {
                assert(prev.push(',').push(dd[i as int]) =~= prev + seq![',', dd[i as int]]);
            }
        }
        i = i + 1;
    }
    proof {
        lemma_grouped_prefix(dd);
        assert(decimal(n as int) == digits(n as nat));
    }
    out
}

} // verus!
