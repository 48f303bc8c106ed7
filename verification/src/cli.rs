use vstd::prelude::*;

use crate::quantize::DEFAULT_K_COLORS;
use crate::text::{chars_of, parse_u64, str_eq, u64_value, unsigned_value};

verus! {

broadcast use vstd::string::group_string_axioms;

/// One step of applying the command-line options, in argument order. Indices
/// point into the argument list.
#[derive(Debug, Clone, Copy, PartialEq, Eq, Structural)]
pub enum CliAction {
    /// `--pixel-size` followed by the value at this index.
    PixelSize(usize),
    /// `--pixel-size` as the last argument; the remaining options are dropped.
    MissingPixelSize,
    /// `--seed` with a valid value.
    Seed(u64),
    /// `--seed` followed by the invalid value at this index; it is ignored.
    InvalidSeed(usize),
    /// `--seed` as the last argument; the remaining options are dropped.
    MissingSeed,
    /// `--palette` followed by the value at this index.
    Palette(usize),
    /// `--palette` as the last argument: a fatal error.
    MissingPalette,
    /// `--dither`: dither the output onto the palette.
    Dither,
    /// An unknown `--` option at this index; it is ignored.
    UnknownFlag(usize),
    /// A positive colour count.
    KColors(usize),
    /// The invalid colour count at this index; the count stays at the second value.
    InvalidKColors(usize, usize),
}

/// The outcome of reading the command line.
#[derive(Debug)]
pub struct CliPlan {
    pub input_path: String,
    pub output_path: String,
    pub actions: Vec<CliAction>,
}

/// `str::parse::<usize>`: the value when it is an unsigned integer text that fits.
pub open spec fn usize_value(s: Seq<char>) -> Option<usize> {
    match u64_value(s) {
        Some(v) => if v <= usize::MAX {
            Some(v as usize)
        } else {
            None
        },
        None => None,
    }
}

/// Whether `s` starts with `--`.
pub open spec fn is_option(s: Seq<char>) -> bool {
    s.len() >= 2 && s[0] == '-' && s[1] == '-'
}

/// The actions for the arguments from index `i` on, with `k` the colour count
/// in force.
pub open spec fn cli_actions(args: Seq<Seq<char>>, i: int, k: usize) -> Seq<CliAction>
    decreases args.len() - i,
{
    if i < 0 || i >= args.len() {
        Seq::empty()
    } else {
        let a = args[i];
        if a == "--pixel-size"@ {
            if i + 1 >= args.len() {
                seq![CliAction::MissingPixelSize]
            } else {
                seq![CliAction::PixelSize((i + 1) as usize)] + cli_actions(args, i + 2, k)
            }
        } else if a == "--seed"@ {
            if i + 1 >= args.len() {
                seq![CliAction::MissingSeed]
            } else {
                seq![
                    match u64_value(args[i + 1]) {
                        Some(s) => CliAction::Seed(s),
                        None => CliAction::InvalidSeed((i + 1) as usize),
                    },
                ] + cli_actions(args, i + 2, k)
            }
        } else if a == "--palette"@ {
            if i + 1 >= args.len() {
                seq![CliAction::MissingPalette]
            } else {
                seq![CliAction::Palette((i + 1) as usize)] + cli_actions(args, i + 2, k)
            }
        } else if a == "--dither"@ {
            seq![CliAction::Dither] + cli_actions(args, i + 1, k)
        } else if is_option(a) {
            seq![CliAction::UnknownFlag(i as usize)] + cli_actions(args, i + 1, k)
        } else {
            match usize_value(a) {
                Some(n) => if n > 0 {
                    seq![CliAction::KColors(n)] + cli_actions(args, i + 1, n)
                } else {
                    seq![CliAction::InvalidKColors(i as usize, k)] + cli_actions(args, i + 1, k)
                },
                None => seq![CliAction::InvalidKColors(i as usize, k)] + cli_actions(args, i + 1, k),
            }
        }
    }
}

/// The texts of the arguments.
pub open spec fn arg_texts(args: Seq<String>) -> Seq<Seq<char>> {
    args.map_values(|a: String| a@)
}

fn parse_usize(s: &str) -> (res: Option<usize>)
    ensures
        res == usize_value(s@),
{
    match parse_u64(s) {
        Some(v) => if v <= usize::MAX as u64 {
            Some(v as usize)
        } else {
            None
        },
        None => None,
    }
}

fn starts_with_dashes(s: &str) -> (b: bool)
    ensures
        b == is_option(s@),
{
    let v = chars_of(s);
    v.len() >= 2 && v[0] == '-' && v[1] == '-'
}

/// Reads the command line `program input output [options...]`: `None` when the
/// input or output is missing, otherwise the two paths and the actions that
/// the options call for, in order.
pub fn parse_args(args: &[String]) -> (res: Option<CliPlan>)
    ensures
        args@.len() < 3 ==> res is None,
        args@.len() >= 3 ==> (res matches Some(plan) && plan.input_path@ == args@[1]@
            && plan.output_path@ == args@[2]@ && plan.actions@ == cli_actions(
            arg_texts(args@),
            3,
            DEFAULT_K_COLORS,
        )),
{
    if args.len() < 3 {
        return None;
    }
    let ghost texts = arg_texts(args@);
    let input_path = String::from_str(args[1].as_str());
    let output_path = String::from_str(args[2].as_str());
    let mut actions: Vec<CliAction> = Vec::new();
    let mut i: usize = 3;
    let mut k: usize = DEFAULT_K_COLORS;
    loop
        invariant_except_break
            actions@ + cli_actions(texts, i as int, k) == cli_actions(texts, 3, DEFAULT_K_COLORS),
        invariant
            texts == arg_texts(args@),
            texts.len() == args@.len(),
            3 <= i <= args@.len(),
        ensures
            actions@ == cli_actions(texts, 3, DEFAULT_K_COLORS),
        decreases args@.len() - i,
    {
        if i >= args.len() {
            assert(actions@ + Seq::<CliAction>::empty() == actions@);
            break ;
        }
        let a = args[i].as_str();
        assert(texts[i as int] == a@);
        let ghost rest = cli_actions(texts, i as int, k);
        if str_eq(a, "--pixel-size") {
            if i + 1 >= args.len() {
                actions.push(CliAction::MissingPixelSize);
                assert(actions@ == cli_actions(texts, 3, DEFAULT_K_COLORS));
                break ;
            }
            actions.push(CliAction::PixelSize(i + 1));
            assert(actions@ + cli_actions(texts, i + 2, k) == cli_actions(texts, 3, DEFAULT_K_COLORS));
            i = i + 2;
        } else if str_eq(a, "--seed") {
            if i + 1 >= args.len() {
                actions.push(CliAction::MissingSeed);
                assert(actions@ == cli_actions(texts, 3, DEFAULT_K_COLORS));
                break ;
            }
            assert(texts[i + 1] == args@[i + 1]@);
            match parse_u64(args[i + 1].as_str()) {
                Some(s) => actions.push(CliAction::Seed(s)),
                None => actions.push(CliAction::InvalidSeed(i + 1)),
            }
            assert(actions@ + cli_actions(texts, i + 2, k) == cli_actions(texts, 3, DEFAULT_K_COLORS));
            i = i + 2;
        } else if str_eq(a, "--palette") {
            if i + 1 >= args.len() {
                actions.push(CliAction::MissingPalette);
                assert(actions@ == cli_actions(texts, 3, DEFAULT_K_COLORS));
                break ;
            }
            actions.push(CliAction::Palette(i + 1));
            assert(actions@ + cli_actions(texts, i + 2, k) == cli_actions(texts, 3, DEFAULT_K_COLORS));
            i = i + 2;
        } else if str_eq(a, "--dither") {
            actions.push(CliAction::Dither);
            assert(actions@ + cli_actions(texts, i + 1, k) == cli_actions(texts, 3, DEFAULT_K_COLORS));
            i = i + 1;
        } else if starts_with_dashes(a) {
            actions.push(CliAction::UnknownFlag(i));
            assert(actions@ + cli_actions(texts, i + 1, k) == cli_actions(texts, 3, DEFAULT_K_COLORS));
            i = i + 1;
        } else {
            match parse_usize(a) {
                Some(n) => {
                    if n > 0 {
                        actions.push(CliAction::KColors(n));
                        assert(actions@ + cli_actions(texts, i + 1, n) == cli_actions(texts, 3, DEFAULT_K_COLORS));
                        k = n;
                    } else {
                        actions.push(CliAction::InvalidKColors(i, k));
                        assert(actions@ + cli_actions(texts, i + 1, k) == cli_actions(texts, 3, DEFAULT_K_COLORS));
                    }
                },
                None => {
                    actions.push(CliAction::InvalidKColors(i, k));
                    assert(actions@ + cli_actions(texts, i + 1, k) == cli_actions(texts, 3, DEFAULT_K_COLORS));
                },
            }
            i = i + 1;
        }
    }
    Some(CliPlan { input_path, output_path, actions })
}

/// `--palette` with a value is read as a `Palette` action for the value, and
/// reading goes on with the argument after the value.
pub proof fn law_options_after_palette_are_read(args: Seq<Seq<char>>, i: int, k: usize)
    requires
        0 <= i,
        i + 1 < args.len(),
        args[i] == "--palette"@,
    ensures
        cli_actions(args, i, k) == seq![CliAction::Palette((i + 1) as usize)] + cli_actions(args, i + 2, k),
{
    reveal_strlit("--palette");
    reveal_strlit("--pixel-size");
    reveal_strlit("--seed");
}

/// `--seed` with a value is read as the seed action for the value, and
/// reading goes on with the argument after the value.
pub proof fn law_options_after_seed_are_read(args: Seq<Seq<char>>, i: int, k: usize)
    requires
        0 <= i,
        i + 1 < args.len(),
        args[i] == "--seed"@,
    ensures
        cli_actions(args, i, k) == seq![
            match u64_value(args[i + 1]) {
                Some(s) => CliAction::Seed(s),
                None => CliAction::InvalidSeed((i + 1) as usize),
            },
        ] + cli_actions(args, i + 2, k),
{
    reveal_strlit("--pixel-size");
    reveal_strlit("--seed");
}

/// `--pixel-size` with a value is read as a `PixelSize` action for the
/// value, and reading goes on with the argument after the value.
pub proof fn law_options_after_pixel_size_are_read(args: Seq<Seq<char>>, i: int, k: usize)
    requires
        0 <= i,
        i + 1 < args.len(),
        args[i] == "--pixel-size"@,
    ensures
        cli_actions(args, i, k) == seq![CliAction::PixelSize((i + 1) as usize)] + cli_actions(args, i + 2, k),
{
}

/// `--dither` is read as a `Dither` action, and reading goes on with the
/// next argument.
pub proof fn law_options_after_dither_are_read(args: Seq<Seq<char>>, i: int, k: usize)
    requires
        0 <= i < args.len(),
        args[i] == "--dither"@,
    ensures
        cli_actions(args, i, k) == seq![CliAction::Dither] + cli_actions(args, i + 1, k),
{
    reveal_strlit("--dither");
    reveal_strlit("--palette");
    reveal_strlit("--pixel-size");
    reveal_strlit("--seed");
}

/// A `--dither` right after a palette value is read: `--palette v --dither`
/// gives the `Palette` action followed by `Dither`.
pub proof fn law_dither_after_palette_value(args: Seq<Seq<char>>, i: int, k: usize)
    requires
        0 <= i,
        i + 2 < args.len(),
        args[i] == "--palette"@,
        args[i + 2] == "--dither"@,
    ensures
        cli_actions(args, i, k).len() >= 2,
        cli_actions(args, i, k)[0] == CliAction::Palette((i + 1) as usize),
        cli_actions(args, i, k)[1] == CliAction::Dither,
{
    law_options_after_palette_are_read(args, i, k);
    law_options_after_dither_are_read(args, i + 2, k);
}

/// A colour count right after a palette value is read: `--palette v n`
/// with `n` a positive number gives the `Palette` action followed by
/// `KColors(n)`.
pub proof fn law_colour_count_after_palette_value(args: Seq<Seq<char>>, i: int, k: usize, n: usize)
    requires
        0 <= i,
        i + 2 < args.len(),
        args[i] == "--palette"@,
        usize_value(args[i + 2]) == Some(n),
        n > 0,
    ensures
        cli_actions(args, i, k).len() >= 2,
        cli_actions(args, i, k)[1] == CliAction::KColors(n),
{
    law_options_after_palette_are_read(args, i, k);
    reveal_strlit("--dither");
    reveal_strlit("--palette");
    reveal_strlit("--pixel-size");
    reveal_strlit("--seed");
    let a = args[i + 2];
    assert(a.len() > 0 && a[0] != '-') by {
        assert(unsigned_value(a) is Some);
    }
    assert(!is_option(a));
    assert(a != "--dither"@);
    assert(a != "--palette"@);
    assert(a != "--pixel-size"@);
    assert(a != "--seed"@);
}

} // verus!
