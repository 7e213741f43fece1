//! The benchmark's command line.

use vstd::prelude::*;

use crate::seqio_bench::{
    args_of, cut_at, flag_step, flags_from, lemma_place_of, mode_of, plain_number, read_digits,
    ring_shape, ArgsFault, ArgsView, Mode, ModeFault, NumberFault, RingFault,
};
use crate::seqwrite::SeqWriterConfig;

verus! {

/// The character is a decimal digit.
pub open spec fn decimal_char(c: char) -> bool {
    48 <= c as u32 && c as u32 <= 57
}

proof fn lemma_one_more_digit(s: Seq<char>, d: char, acc: nat, max: nat)
    ensures
        read_digits(s.push(d), acc, max) == (match read_digits(s, acc, max) {
            Err(e) => Err::<nat, NumberFault>(e),
            Ok(n) => if !decimal_char(d) {
                Err(NumberFault::InvalidDigit)
            } else if n * 10 + (d as u32 - 48) > max {
                Err(NumberFault::TooLarge)
            } else {
                Ok((n * 10 + (d as u32 - 48)) as nat)
            },
        }),
    decreases s.len(),
{
    let t = s.push(d);
    if s.len() == 0 {
        assert(t.skip(1) =~= Seq::empty());
        let next = (acc * 10 + (d as u32 - 48)) as nat;
        assert(read_digits(t.skip(1), next, max) == Ok::<nat, NumberFault>(next));
    } else {
        assert(t.skip(1) =~= s.skip(1).push(d));
        if decimal_char(s[0]) {
            let next = (acc * 10 + (s[0] as u32 - 48)) as nat;
            lemma_one_more_digit(s.skip(1), d, next, max);
        }
    }
}

/// A digit behind a number makes it ten times the number, plus the digit, unless
/// that is too large. Anything else behind a number makes it none, and what is no
/// number does not become one.
pub proof fn law_plain_number_grows(s: Seq<char>, d: char, max: nat)
    requires
        s.len() > 0,
        s != seq!['+'],
    ensures
        plain_number(s.push(d), max) == (match plain_number(s, max) {
            Err(e) => Err::<nat, NumberFault>(e),
            Ok(n) => if !decimal_char(d) {
                Err(NumberFault::InvalidDigit)
            } else if n * 10 + (d as u32 - 48) > max {
                Err(NumberFault::TooLarge)
            } else {
                Ok((n * 10 + (d as u32 - 48)) as nat)
            },
        }),
{
    let t = s.push(d);
    if s[0] == '+' {
        if s.len() == 1 {
            assert(s =~= seq!['+']);
        }
        assert(t.skip(1) =~= s.skip(1).push(d));
        lemma_one_more_digit(s.skip(1), d, 0, max);
    } else {
        lemma_one_more_digit(s, d, 0, max);
    }
}

/// A single digit is its number, with or without a plus sign. Nothing at all is
/// no number.
pub proof fn law_single_digits_are_numbers(d: char, max: nat)
    ensures
        plain_number(Seq::empty(), max) == Err::<nat, NumberFault>(NumberFault::Empty),
        plain_number(seq![d], max) == (if !decimal_char(d) {
            Err::<nat, NumberFault>(NumberFault::InvalidDigit)
        } else if d as u32 - 48 > max {
            Err(NumberFault::TooLarge)
        } else {
            Ok((d as u32 - 48) as nat)
        }),
        plain_number(seq!['+', d], max) == plain_number(seq![d], max),
{
    let none = Seq::<char>::empty();
    lemma_one_more_digit(none, d, 0, max);
    assert(none.push(d) =~= seq![d]);
    assert(seq!['+', d].skip(1) =~= seq![d]);
}

/// A text is cut at the first mark: what stands before it has none, and what
/// stands behind it is the rest.
pub proof fn law_text_is_cut_at_the_first_mark(a: Seq<char>, c: char, b: Seq<char>)
    requires
        forall|i: int| 0 <= i < a.len() ==> a[i] != c,
    ensures
        cut_at(a, c) == (a, None::<Seq<char>>),
        cut_at(a.push(c) + b, c) == (a, Some(b)),
{
    let n = a.len() as int;
    lemma_place_of(a, c, n);
    let s = a.push(c) + b;
    assert forall|i: int| 0 <= i < n implies #[trigger] s[i] != c by {
        assert(s[i] == a[i]);
    }
    lemma_place_of(s, c, n);
    assert(s.take(n) =~= a);
    assert(s.skip(n + 1) =~= b);
}

/// The text holds no `x`.
pub open spec fn no_x(s: Seq<char>) -> bool {
    forall|i: int| 0 <= i < s.len() ==> s[i] != 'x'
}

/// The shape of a ring is three numbers with `x` between them, the last of which
/// is a multiple of a sector.
pub proof fn law_ring_shape_is_three_numbers(t: Seq<char>, l: Seq<char>, b: Seq<char>)
    requires
        no_x(t),
        no_x(l),
        no_x(b),
        plain_number(t, usize::MAX as nat) is Ok,
        plain_number(l, usize::MAX as nat) is Ok,
        plain_number(b, usize::MAX as nat) is Ok,
    ensures
        ({
            let max = usize::MAX as nat;
            let block = plain_number(b, max)->Ok_0;
            let shape = t.push('x') + (l.push('x') + b);
            &&& block % 4096 == 0 ==> ring_shape(shape) == Ok::<SeqWriterConfig, RingFault>(
                SeqWriterConfig {
                    threads: plain_number(t, max)->Ok_0 as usize,
                    slots: plain_number(l, max)->Ok_0 as usize,
                    block: block as usize,
                },
            )
            &&& block % 4096 != 0 ==> ring_shape(shape) == Err::<SeqWriterConfig, RingFault>(
                RingFault::Unaligned(block as usize),
            )
            &&& ring_shape(t) == Err::<SeqWriterConfig, RingFault>(RingFault::Shape)
            &&& ring_shape(t.push('x') + l) == Err::<SeqWriterConfig, RingFault>(
                RingFault::Shape,
            )
            &&& ring_shape(t.push('x') + (l.push('x') + b.push('x'))) == Err::<
                SeqWriterConfig,
                RingFault,
            >(RingFault::Shape)
        }),
{
    let none = Seq::<char>::empty();
    law_text_is_cut_at_the_first_mark(t, 'x', l.push('x') + b);
    law_text_is_cut_at_the_first_mark(l, 'x', b);
    law_text_is_cut_at_the_first_mark(b, 'x', none);
    law_text_is_cut_at_the_first_mark(t, 'x', l);
    law_text_is_cut_at_the_first_mark(t, 'x', l.push('x') + b.push('x'));
    law_text_is_cut_at_the_first_mark(l, 'x', b.push('x'));
    assert(b.push('x') + none =~= b.push('x'));
}

/// Reading without a mark is the mode `file`.
pub proof fn law_bare_mode_is_spelled(arg: Seq<char>)
    ensures
        mode_of("file"@) == Ok::<Mode, ModeFault>(Mode::Bare),
{
    reveal_strlit("file");
    law_text_is_cut_at_the_first_mark("file"@, ':', arg);
}

/// Reading through a buffer is the mode `bufreader:<size>`.
pub proof fn law_buffered_mode_is_spelled(arg: Seq<char>)
    requires
        plain_number(arg, usize::MAX as nat) is Ok,
    ensures
        mode_of("bufreader"@.push(':') + arg) == Ok::<Mode, ModeFault>(
            Mode::Buffered(plain_number(arg, usize::MAX as nat)->Ok_0 as usize),
        ),
{
    reveal_strlit("file");
    reveal_strlit("bufreader");
    law_text_is_cut_at_the_first_mark("bufreader"@, ':', arg);
    assert("bufreader"@.len() == 9 && "file"@.len() == 4);
}

/// Reading in blocks is the mode `block:<size>`.
pub proof fn law_block_mode_is_spelled(arg: Seq<char>)
    requires
        plain_number(arg, usize::MAX as nat) is Ok,
    ensures
        mode_of("block"@.push(':') + arg) == Ok::<Mode, ModeFault>(
            Mode::Block(plain_number(arg, usize::MAX as nat)->Ok_0 as usize),
        ),
{
    reveal_strlit("file");
    reveal_strlit("bufreader");
    reveal_strlit("block");
    law_text_is_cut_at_the_first_mark("block"@, ':', arg);
    assert("bufreader"@.len() == 9 && "file"@.len() == 4 && "block"@.len() == 5);
}

/// Reading through a ring is the mode `ring:<shape>`.
pub proof fn law_ring_mode_is_spelled(arg: Seq<char>)
    requires
        ring_shape(arg) is Ok,
    ensures
        mode_of("ring"@.push(':') + arg) == Ok::<Mode, ModeFault>(
            Mode::Ring {
                threads: ring_shape(arg)->Ok_0.threads,
                slots: ring_shape(arg)->Ok_0.slots,
                block: ring_shape(arg)->Ok_0.block,
            },
        ),
{
    reveal_strlit("file");
    reveal_strlit("bufreader");
    reveal_strlit("block");
    reveal_strlit("ring");
    law_text_is_cut_at_the_first_mark("ring"@, ':', arg);
    assert("bufreader"@.len() == 9 && "block"@.len() == 5 && "ring"@.len() == 4);
    assert("file"@[0] == 'f' && "ring"@[0] == 'r');
}

proof fn lemma_flags_go_on(a: ArgsView, argv: Seq<Seq<char>>, more: Seq<Seq<char>>, i: int)
    requires
        0 <= i <= argv.len(),
        flags_from(a, argv, i) is Ok,
    ensures
        flags_from(a, argv + more, i) == flags_from(
            flags_from(a, argv, i)->Ok_0,
            argv + more,
            argv.len() as int,
        ),
    decreases argv.len() - i,
{
    let all = argv + more;
    if i < argv.len() {
        assert(all[i] == argv[i]);
        if argv[i] == "--header"@ {
            lemma_flags_go_on(ArgsView { header: true, ..a }, argv, more, i + 1);
        } else {
            assert(all[i + 1] == argv[i + 1]);
            assert(flag_step(a, all, i) == flag_step(a, argv, i));
            lemma_flags_go_on(flag_step(a, argv, i)->Ok_0, argv, more, i + 2);
        }
    }
}

/// The flags of a command line are read one after the other: one more flag sets
/// what it is for and leaves the rest, whatever came before it.
#[verifier::spinoff_prover]
#[verifier::rlimit(60)]
pub proof fn law_flags_set_what_they_are_for(a: ArgsView, argv: Seq<Seq<char>>, value: Seq<char>)
    requires
        argv.len() >= 2,
        flags_from(a, argv, 2) is Ok,
    ensures
        ({
            let before = flags_from(a, argv, 2)->Ok_0;
            let number = plain_number(value, u64::MAX as nat);
            let size = plain_number(value, usize::MAX as nat);
            &&& flags_from(a, argv.push("--header"@), 2) == Ok::<ArgsView, ArgsFault>(
                ArgsView { header: true, ..before },
            )
            &&& flags_from(a, argv.push("--label"@).push(value), 2) == Ok::<ArgsView, ArgsFault>(
                ArgsView { label: value, ..before },
            )
            &&& number is Ok ==> flags_from(a, argv.push("--offset"@).push(value), 2) == Ok::<
                ArgsView,
                ArgsFault,
            >(ArgsView { offset: number->Ok_0 as u64, ..before })
            &&& number is Ok ==> flags_from(a, argv.push("--length"@).push(value), 2) == Ok::<
                ArgsView,
                ArgsFault,
            >(ArgsView { length: number->Ok_0 as u64, ..before })
            &&& size is Ok ==> flags_from(a, argv.push("--record"@).push(value), 2) == Ok::<
                ArgsView,
                ArgsFault,
            >(ArgsView { record: size->Ok_0 as usize, ..before })
            &&& !before.write && mode_of(value) is Ok ==> flags_from(
                a,
                argv.push("--mode"@).push(value),
                2,
            ) == Ok::<ArgsView, ArgsFault>(ArgsView { mode: Some(mode_of(value)->Ok_0), ..before })
        }),
{
    reveal_strlit("--header");
    reveal_strlit("--label");
    reveal_strlit("--offset");
    reveal_strlit("--length");
    reveal_strlit("--record");
    reveal_strlit("--mode");
    assert("--header"@.len() == 8 && "--label"@.len() == 7 && "--offset"@.len() == 8);
    assert("--length"@.len() == 8 && "--record"@.len() == 8 && "--mode"@.len() == 6);
    assert("--header"@[2] == 'h' && "--offset"@[2] == 'o' && "--length"@[2] == 'l'
        && "--record"@[2] == 'r');
    let before = flags_from(a, argv, 2)->Ok_0;
    lemma_flags_go_on(a, argv, seq!["--header"@], 2);
    assert(argv + seq!["--header"@] =~= argv.push("--header"@));
    lemma_one_flag(a, argv, before, "--label"@, value);
    lemma_one_flag(a, argv, before, "--offset"@, value);
    lemma_one_flag(a, argv, before, "--length"@, value);
    lemma_one_flag(a, argv, before, "--record"@, value);
    lemma_one_flag(a, argv, before, "--mode"@, value);
    let n = argv.len() as int;
    let one = argv.push("--header"@);
    assert(flags_from(ArgsView { header: true, ..before }, one, n + 1) == Ok::<
        ArgsView,
        ArgsFault,
    >(ArgsView { header: true, ..before }));
}

proof fn lemma_one_flag(
    a: ArgsView,
    argv: Seq<Seq<char>>,
    before: ArgsView,
    flag: Seq<char>,
    value: Seq<char>,
)
    requires
        argv.len() >= 2,
        flags_from(a, argv, 2) == Ok::<ArgsView, ArgsFault>(before),
        flag != "--header"@,
    ensures
        flags_from(a, argv.push(flag).push(value), 2) == flag_step(
            before,
            argv.push(flag).push(value),
            argv.len() as int,
        ),
        argv.push(flag).push(value)[argv.len() as int] == flag,
        argv.push(flag).push(value)[argv.len() as int + 1] == value,
{
    let more = seq![flag, value];
    let all = argv.push(flag).push(value);
    let n = argv.len() as int;
    lemma_flags_go_on(a, argv, more, 2);
    assert(argv + more =~= all);
    match flag_step(before, all, n) {
        Ok(next) => {
            assert(flags_from(next, all, n + 2) == Ok::<ArgsView, ArgsFault>(next));
        },
        Err(e) => {},
    }
}

/// A command line without flags asks for the usual values, and what its flags ask
/// for must fit together: records of whole words, and for writing a length and no
/// offset.
pub proof fn law_command_line_is_settled(argv: Seq<Seq<char>>)
    requires
        argv.len() >= 2,
        argv[0] == "read"@ || argv[0] == "write"@,
    ensures
        ({
            let write = argv[0] == "write"@;
            let start = ArgsView {
                write,
                path: argv[1],
                mode: None,
                wconfig: None,
                label: Seq::empty(),
                offset: 0,
                length: 0,
                record: 4096,
                header: false,
            };
            let flags = flags_from(start, argv, 2);
            &&& flags is Err ==> args_of(argv) == flags
            &&& flags is Ok ==> {
                let a = flags->Ok_0;
                let words = a.record >= 8 && a.record % 8 == 0;
                &&& !words ==> args_of(argv) == Err::<ArgsView, ArgsFault>(
                    ArgsFault::RecordNotWords,
                )
                &&& words && a.write && a.length == 0 ==> args_of(argv) == Err::<
                    ArgsView,
                    ArgsFault,
                >(ArgsFault::LengthRequired)
                &&& words && a.write && a.length > 0 && a.offset > 0 ==> args_of(argv) == Err::<
                    ArgsView,
                    ArgsFault,
                >(ArgsFault::WriteTakesNoOffset)
                &&& words && (a.write ==> a.length > 0 && a.offset == 0) ==> args_of(
                    argv,
                ) is Ok && {
                    let r = args_of(argv)->Ok_0;
                    &&& r.write == a.write && r.path == a.path && r.label == a.label
                    &&& r.offset == a.offset && r.length == a.length && r.record == a.record
                    &&& r.header == a.header
                    &&& !a.write ==> r.mode == Some(
                        if a.mode is Some {
                            a.mode->Some_0
                        } else {
                            Mode::Buffered(8192)
                        },
                    )
                    &&& a.write ==> r.wconfig == Some(
                        if a.wconfig is Some {
                            a.wconfig->Some_0
                        } else {
                            SeqWriterConfig { threads: 4, slots: 4, block: 0x40_0000 }
                        },
                    )
                }
            }
        }),
{
}

} // verus!
