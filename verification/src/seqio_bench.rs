//! The rules of the sequential I/O benchmark: its command line, the pattern that
//! it writes, the sum that it makes of what it reads.

use vstd::prelude::*;

use crate::bytes::{le64, u64_at};
use crate::dir::{chars_of, is_digit};
use crate::marshal::{Reader, Writer};
use crate::seqread::SECTOR;
use crate::seqwrite::SeqWriterConfig;

verus! {

broadcast use crate::bytes::group_le_len;

/// Why some text is no number.
#[derive(Clone, Copy, Debug, PartialEq, Eq, Structural)]
pub enum NumberFault {
    /// There is no text.
    Empty,
    /// A character is no digit.
    InvalidDigit,
    /// The number is too large.
    TooLarge,
}

/// The number that the digits `acc` followed by the text `s` stand for, read
/// from left to right.
pub open spec fn read_digits(s: Seq<char>, acc: nat, max: nat) -> Result<nat, NumberFault>
    decreases s.len(),
{
    if s.len() == 0 {
        Ok(acc)
    } else if !is_digit(s[0]) {
        Err(NumberFault::InvalidDigit)
    } else {
        let next = acc * 10 + (s[0] as u32 - 48);
        if next > max {
            Err(NumberFault::TooLarge)
        } else {
            read_digits(s.skip(1), next as nat, max)
        }
    }
}

/// The number that a text stands for: digits, and perhaps a plus sign before
/// them.
pub open spec fn plain_number(s: Seq<char>, max: nat) -> Result<nat, NumberFault> {
    if s.len() == 0 {
        Err(NumberFault::Empty)
    } else if s[0] == '+' && s.len() > 1 {
        read_digits(s.skip(1), 0, max)
    } else {
        read_digits(s, 0, max)
    }
}

/// Reads a number up to `max`.
pub fn parse_plain_number(s: &[char], max: u64) -> (r: Result<u64, NumberFault>)
    ensures
        match plain_number(s@, max as nat) {
            Ok(n) => r == Ok::<u64, NumberFault>(n as u64) && n <= max,
            Err(e) => r == Err::<u64, NumberFault>(e),
        },
{
    let len: usize = s.len();
    if len == 0 {
        return Err(NumberFault::Empty);
    }
    let mut i: usize = 0;
    if s[0] == '+' && len > 1 {
        i = 1;
    }
    let mut acc: u64 = 0;
    assert(s@.skip(0) =~= s@);
    while i < len
        invariant
            i <= len,
            len == s@.len(),
            acc <= max,
            plain_number(s@, max as nat) == read_digits(s@.skip(i as int), acc as nat, max as nat),
        decreases len - i,
    {
        let c: char = s[i];
        let code: u32 = c as u32;
        let ghost rest = s@.skip(i as int);
        assert(rest[0] == c);
        assert(rest.skip(1) =~= s@.skip(i + 1));
        if code < 48 || code > 57 {
            return Err(NumberFault::InvalidDigit);
        }
        let d: u64 = (code - 48) as u64;
        if acc > max / 10 {
            assert(acc * 10 + d > max);
            return Err(NumberFault::TooLarge);
        }
        let ten: u64 = acc * 10;
        if max - ten < d {
            return Err(NumberFault::TooLarge);
        }
        acc = ten + d;
        i += 1;
    }
    assert(s@.skip(len as int) =~= Seq::<char>::empty());
    Ok(acc)
}

/// Where `c` first stands in `s`; the length of `s` if it does not.
pub open spec fn place_of(s: Seq<char>, c: char) -> nat
    decreases s.len(),
{
    if s.len() == 0 || s[0] == c {
        0
    } else {
        1 + place_of(s.skip(1), c)
    }
}

pub(crate) proof fn lemma_place_of(s: Seq<char>, c: char, n: int)
    requires
        0 <= n <= s.len(),
        forall|i: int| 0 <= i < n ==> #[trigger] s[i] != c,
        n < s.len() ==> s[n] == c,
    ensures
        place_of(s, c) == n,
    decreases n,
{
    if n > 0 {
        let t = s.skip(1);
        assert forall|i: int| 0 <= i < n - 1 implies #[trigger] t[i] != c by {
            assert(t[i] == s[i + 1]);
        }
        lemma_place_of(t, c, n - 1);
    }
}

/// Finds where `c` first stands in `s`.
fn find(s: &[char], c: char) -> (r: usize)
    ensures
        r == place_of(s@, c),
        r <= s@.len(),
{
    let mut i: usize = 0;
    while i < s.len()
        invariant_except_break
            i <= s@.len(),
        invariant
            i <= s@.len(),
            forall|j: int| 0 <= j < i ==> #[trigger] s@[j] != c,
        ensures
            i < s@.len() ==> s@[i as int] == c,
        decreases s.len() - i,
    {
        if s[i] == c {
            break;
        }
        i += 1;
    }
    proof {
        lemma_place_of(s@, c, i as int);
    }
    i
}

/// What stands before the first `c`, and what stands behind it.
pub open spec fn cut_at(s: Seq<char>, c: char) -> (Seq<char>, Option<Seq<char>>) {
    let n = place_of(s, c) as int;
    if n < s.len() {
        (s.take(n), Some(s.skip(n + 1)))
    } else {
        (s, None)
    }
}

/// Cuts a text at the first `c`.
fn cut(s: &[char], c: char) -> (r: (&[char], Option<&[char]>))
    ensures
        r.0@ == cut_at(s@, c).0,
        r.1 is Some <==> cut_at(s@, c).1 is Some,
        r.1 is Some ==> r.1->Some_0@ == cut_at(s@, c).1->Some_0,
{
    let n: usize = find(s, c);
    if n < s.len() {
        let head = vstd::slice::slice_subrange(s, 0, n);
        let tail = vstd::slice::slice_subrange(s, n + 1, s.len());
        assert(head@ =~= s@.take(n as int));
        assert(tail@ =~= s@.skip(n + 1));
        (head, Some(tail))
    } else {
        (s, None)
    }
}

/// One of the numbers of a ring's shape.
#[derive(Clone, Copy, Debug, PartialEq, Eq, Structural)]
pub enum RingTerm {
    /// How many threads there are.
    Threads,
    /// How many slots there are.
    Slots,
    /// How many bytes a block has.
    Block,
}

/// Why some text is not the shape of a ring.
#[derive(Clone, Copy, Debug, PartialEq, Eq, Structural)]
pub enum RingFault {
    /// There are too few or too many terms.
    Shape,
    /// A term is no number.
    Term(RingTerm, NumberFault),
    /// The block size is no multiple of a sector.
    Unaligned(usize),
}

/// The shape `<threads>x<slots>x<block>` that a text stands for.
pub open spec fn ring_shape(s: Seq<char>) -> Result<SeqWriterConfig, RingFault> {
    let (t, more) = cut_at(s, 'x');
    let (l, last) = cut_at(more->Some_0, 'x');
    let (b, extra) = cut_at(last->Some_0, 'x');
    let max = usize::MAX as nat;
    if plain_number(t, max) is Err {
        Err(RingFault::Term(RingTerm::Threads, plain_number(t, max)->Err_0))
    } else if more is None {
        Err(RingFault::Shape)
    } else if plain_number(l, max) is Err {
        Err(RingFault::Term(RingTerm::Slots, plain_number(l, max)->Err_0))
    } else if last is None {
        Err(RingFault::Shape)
    } else if plain_number(b, max) is Err {
        Err(RingFault::Term(RingTerm::Block, plain_number(b, max)->Err_0))
    } else if extra is Some {
        Err(RingFault::Shape)
    } else if plain_number(b, max)->Ok_0 % 4096 != 0 {
        Err(RingFault::Unaligned(plain_number(b, max)->Ok_0 as usize))
    } else {
        Ok(
            SeqWriterConfig {
                threads: plain_number(t, max)->Ok_0 as usize,
                slots: plain_number(l, max)->Ok_0 as usize,
                block: plain_number(b, max)->Ok_0 as usize,
            },
        )
    }
}

/// Reads the shape of a ring.
pub fn parse_ring_spec(s: &[char]) -> (r: Result<SeqWriterConfig, RingFault>)
    ensures
        r == ring_shape(s@),
{
    let max: u64 = usize::MAX as u64;
    let (t, more) = cut(s, 'x');
    let threads: u64 = match parse_plain_number(t, max) {
        Ok(n) => n,
        Err(e) => {
            return Err(RingFault::Term(RingTerm::Threads, e));
        },
    };
    let more = match more {
        Some(more) => more,
        None => {
            return Err(RingFault::Shape);
        },
    };
    let (l, last) = cut(more, 'x');
    let slots: u64 = match parse_plain_number(l, max) {
        Ok(n) => n,
        Err(e) => {
            return Err(RingFault::Term(RingTerm::Slots, e));
        },
    };
    let last = match last {
        Some(last) => last,
        None => {
            return Err(RingFault::Shape);
        },
    };
    let (b, extra) = cut(last, 'x');
    let block: u64 = match parse_plain_number(b, max) {
        Ok(n) => n,
        Err(e) => {
            return Err(RingFault::Term(RingTerm::Block, e));
        },
    };
    if extra.is_some() {
        return Err(RingFault::Shape);
    }
    let block: usize = block as usize;
    if block % SECTOR != 0 {
        return Err(RingFault::Unaligned(block));
    }
    Ok(SeqWriterConfig { threads: threads as usize, slots: slots as usize, block })
}

/// How a file is read.
#[derive(Clone, Copy, Debug, PartialEq, Eq, Structural)]
pub enum Mode {
    /// One read per record.
    Bare,
    /// Through a buffer of this size.
    Buffered(usize),
    /// Block by block, records out of the block.
    Block(usize),
    /// Through a ring of blocks in flight.
    Ring {
        /// How many threads read.
        threads: usize,
        /// How many slots the ring has.
        slots: usize,
        /// Bytes per block.
        block: usize,
    },
}

/// Why some text is no mode.
#[derive(Clone, Copy, Debug, PartialEq, Eq, Structural)]
pub enum ModeFault {
    /// There is no such mode.
    Unknown,
    /// The mode needs a size.
    NeedsSize,
    /// The size is no number.
    BadSize(NumberFault),
    /// The ring needs a shape.
    NeedsShape,
    /// The ring's shape is none.
    Ring(RingFault),
}

/// The mode with a size that a text stands for.
pub open spec fn sized_mode(arg: Option<Seq<char>>, block: bool) -> Result<Mode, ModeFault> {
    match arg {
        None => Err(ModeFault::NeedsSize),
        Some(a) => match plain_number(a, usize::MAX as nat) {
            Err(e) => Err(ModeFault::BadSize(e)),
            Ok(n) => if block {
                Ok(Mode::Block(n as usize))
            } else {
                Ok(Mode::Buffered(n as usize))
            },
        },
    }
}

/// The mode that a text stands for.
pub open spec fn mode_of(s: Seq<char>) -> Result<Mode, ModeFault> {
    let (kind, arg) = cut_at(s, ':');
    if kind == "file"@ {
        Ok(Mode::Bare)
    } else if kind == "bufreader"@ {
        sized_mode(arg, false)
    } else if kind == "block"@ {
        sized_mode(arg, true)
    } else if kind == "ring"@ {
        match arg {
            None => Err(ModeFault::NeedsShape),
            Some(a) => match ring_shape(a) {
                Err(e) => Err(ModeFault::Ring(e)),
                Ok(c) => Ok(Mode::Ring { threads: c.threads, slots: c.slots, block: c.block }),
            },
        }
    } else {
        Err(ModeFault::Unknown)
    }
}

/// Whether the characters are those of `text`.
fn is_text(s: &[char], text: &str) -> (r: bool)
    ensures
        r == (s@ == text@),
{
    if s.len() != text.unicode_len() {
        return false;
    }
    let mut i: usize = 0;
    while i < s.len()
        invariant
            i <= s@.len(),
            s@.len() == text@.len(),
            s@.take(i as int) == text@.take(i as int),
        decreases s.len() - i,
    {
        if s[i] != text.get_char(i) {
            return false;
        }
        assert(s@.take(i + 1) =~= s@.take(i as int).push(s@[i as int]));
        assert(text@.take(i + 1) =~= text@.take(i as int).push(text@[i as int]));
        i += 1;
    }
    assert(s@.take(s@.len() as int) =~= s@);
    assert(text@.take(s@.len() as int) =~= text@);
    true
}

fn parse_sized(arg: Option<&[char]>, block: bool) -> (r: Result<Mode, ModeFault>)
    ensures
        r == sized_mode(
            if arg is Some {
                Some(arg->Some_0@)
            } else {
                None
            },
            block,
        ),
{
    match arg {
        None => Err(ModeFault::NeedsSize),
        Some(a) => match parse_plain_number(a, usize::MAX as u64) {
            Err(e) => Err(ModeFault::BadSize(e)),
            Ok(n) => if block {
                Ok(Mode::Block(n as usize))
            } else {
                Ok(Mode::Buffered(n as usize))
            },
        },
    }
}

impl Mode {
    /// Reads a mode: `file`, `bufreader:<size>`, `block:<size>` or
    /// `ring:<threads>x<slots>x<block>`.
    pub fn parse(s: &str) -> (r: Result<Mode, ModeFault>)
        ensures
            r == mode_of(s@),
    {
        let chars = chars_of(s);
        let (kind, arg) = cut(chars.as_slice(), ':');
        if is_text(kind, "file") {
            Ok(Mode::Bare)
        } else if is_text(kind, "bufreader") {
            parse_sized(arg, false)
        } else if is_text(kind, "block") {
            parse_sized(arg, true)
        } else if is_text(kind, "ring") {
            match arg {
                None => Err(ModeFault::NeedsShape),
                Some(a) => match parse_ring_spec(a) {
                    Err(e) => Err(ModeFault::Ring(e)),
                    Ok(c) => Ok(Mode::Ring { threads: c.threads, slots: c.slots, block: c.block }),
                },
            }
        } else {
            Err(ModeFault::Unknown)
        }
    }

    /// How many bytes are asked of the system at a time.
    pub fn block(&self, record: usize) -> (r: usize)
        ensures
            r == (match *self {
                Mode::Bare => record,
                Mode::Buffered(n) => n,
                Mode::Block(n) => n,
                Mode::Ring { block, .. } => block,
            }),
    {
        match *self {
            Mode::Bare => record,
            Mode::Buffered(n) => n,
            Mode::Block(n) => n,
            Mode::Ring { block, .. } => block,
        }
    }

    /// How many reads the system may be working on at once.
    pub fn depth(&self) -> (r: usize)
        ensures
            r == (match *self {
                Mode::Ring { threads, .. } => threads,
                _ => 1,
            }),
    {
        match *self {
            Mode::Ring { threads, .. } => threads,
            _ => 1,
        }
    }

    /// The mode's name.
    pub fn label(&self) -> (r: &'static str)
        ensures
            r@ == (match *self {
                Mode::Bare => "file"@,
                Mode::Buffered(_) => "bufreader"@,
                Mode::Block(_) => "block"@,
                Mode::Ring { .. } => "ring"@,
            }),
    {
        match *self {
            Mode::Bare => "file",
            Mode::Buffered(_) => "bufreader",
            Mode::Block(_) => "block",
            Mode::Ring { .. } => "ring",
        }
    }
}

/// What the command line asks for.
#[derive(Debug)]
pub struct Args {
    /// Write, do not read.
    pub write: bool,
    /// The file.
    pub path: String,
    /// How to read it.
    pub mode: Option<Mode>,
    /// How to write it.
    pub wconfig: Option<SeqWriterConfig>,
    /// A label for the result.
    pub label: String,
    /// Where to start reading.
    pub offset: u64,
    /// How many bytes; zero for all that there are.
    pub length: u64,
    /// Bytes per record.
    pub record: usize,
    /// Whether to print a line of headings first.
    pub header: bool,
}

/// What the command line asks for, as values.
pub struct ArgsView {
    pub write: bool,
    pub path: Seq<char>,
    pub mode: Option<Mode>,
    pub wconfig: Option<SeqWriterConfig>,
    pub label: Seq<char>,
    pub offset: u64,
    pub length: u64,
    pub record: usize,
    pub header: bool,
}

impl View for Args {
    type V = ArgsView;

    open spec fn view(&self) -> ArgsView {
        ArgsView {
            write: self.write,
            path: self.path@,
            mode: self.mode,
            wconfig: self.wconfig,
            label: self.label@,
            offset: self.offset,
            length: self.length,
            record: self.record,
            header: self.header,
        }
    }
}

/// Why a command line is refused. The numbers are places in it.
#[derive(Clone, Copy, Debug, PartialEq, Eq, Structural)]
pub enum ArgsFault {
    /// Too little is there.
    Usage,
    /// The first argument is neither `read` nor `write`.
    UnknownSubcommand,
    /// Nothing follows the flag at this place.
    MissingValue(usize),
    /// The flag at this place is none.
    UnknownArgument(usize),
    /// Writing goes through a ring, and the value at this place has no shape.
    WriteNeedsRing(usize),
    /// Writing goes through a ring, and the value at this place is another mode.
    UnknownWriteMode(usize),
    /// The value at this place is not the shape of a ring.
    BadRing(usize, RingFault),
    /// The value at this place is no mode.
    BadMode(usize, ModeFault),
    /// The value at this place is no number.
    BadNumber(usize, NumberFault),
    /// A record is not made of eight byte words.
    RecordNotWords,
    /// Writing needs a length.
    LengthRequired,
    /// Writing starts at the start.
    WriteTakesNoOffset,
}

/// What a flag with a value, at places `i` and `i + 1`, changes.
pub open spec fn flag_step(a: ArgsView, argv: Seq<Seq<char>>, i: int) -> Result<
    ArgsView,
    ArgsFault,
> {
    let flag = argv[i];
    let value = argv[i + 1];
    let at = (i + 1) as usize;
    if flag == "--mode"@ && a.write {
        let (kind, arg) = cut_at(value, ':');
        match arg {
            None => Err(ArgsFault::WriteNeedsRing(at)),
            Some(shape) => if kind != "ring"@ {
                Err(ArgsFault::UnknownWriteMode(at))
            } else {
                match ring_shape(shape) {
                    Err(e) => Err(ArgsFault::BadRing(at, e)),
                    Ok(c) => Ok(ArgsView { wconfig: Some(c), ..a }),
                }
            },
        }
    } else if flag == "--mode"@ {
        match mode_of(value) {
            Err(e) => Err(ArgsFault::BadMode(at, e)),
            Ok(m) => Ok(ArgsView { mode: Some(m), ..a }),
        }
    } else if flag == "--label"@ {
        Ok(ArgsView { label: value, ..a })
    } else if flag == "--offset"@ {
        match plain_number(value, u64::MAX as nat) {
            Err(e) => Err(ArgsFault::BadNumber(at, e)),
            Ok(n) => Ok(ArgsView { offset: n as u64, ..a }),
        }
    } else if flag == "--length"@ {
        match plain_number(value, u64::MAX as nat) {
            Err(e) => Err(ArgsFault::BadNumber(at, e)),
            Ok(n) => Ok(ArgsView { length: n as u64, ..a }),
        }
    } else if flag == "--record"@ {
        match plain_number(value, usize::MAX as nat) {
            Err(e) => Err(ArgsFault::BadNumber(at, e)),
            Ok(n) => Ok(ArgsView { record: n as usize, ..a }),
        }
    } else {
        Err(ArgsFault::UnknownArgument(i as usize))
    }
}

/// What the flags from place `i` on ask for.
pub open spec fn flags_from(a: ArgsView, argv: Seq<Seq<char>>, i: int) -> Result<
    ArgsView,
    ArgsFault,
>
    decreases argv.len() - i,
{
    if i >= argv.len() {
        Ok(a)
    } else if argv[i] == "--header"@ {
        flags_from(ArgsView { header: true, ..a }, argv, i + 1)
    } else if i + 1 >= argv.len() {
        Err(ArgsFault::MissingValue(i as usize))
    } else {
        match flag_step(a, argv, i) {
            Ok(next) => flags_from(next, argv, i + 2),
            Err(e) => Err(e),
        }
    }
}

/// What a command line asks for once its flags are read: what was not given gets
/// its usual value, and what does not fit together is refused.
pub open spec fn settled_args(a: ArgsView) -> Result<ArgsView, ArgsFault> {
    if a.record < 8 || a.record % 8 != 0 {
        Err(ArgsFault::RecordNotWords)
    } else if a.write {
        if a.length == 0 {
            Err(ArgsFault::LengthRequired)
        } else if a.offset != 0 {
            Err(ArgsFault::WriteTakesNoOffset)
        } else if a.wconfig is None {
            Ok(
                ArgsView {
                    wconfig: Some(SeqWriterConfig { threads: 4, slots: 4, block: 0x40_0000 }),
                    ..a
                },
            )
        } else {
            Ok(a)
        }
    } else if a.mode is None {
        Ok(ArgsView { mode: Some(Mode::Buffered(8192)), ..a })
    } else {
        Ok(a)
    }
}

/// What a command line asks for before its flags are read.
pub open spec fn bare_args(write: bool, path: Seq<char>) -> ArgsView {
    ArgsView {
        write,
        path,
        mode: None,
        wconfig: None,
        label: Seq::empty(),
        offset: 0,
        length: 0,
        record: 4096,
        header: false,
    }
}

/// What a command line, without the program's name, asks for.
pub open spec fn args_of(argv: Seq<Seq<char>>) -> Result<ArgsView, ArgsFault> {
    if argv.len() == 0 {
        Err(ArgsFault::Usage)
    } else if argv[0] != "read"@ && argv[0] != "write"@ {
        Err(ArgsFault::UnknownSubcommand)
    } else if argv.len() == 1 {
        Err(ArgsFault::Usage)
    } else {
        match flags_from(bare_args(argv[0] == "write"@, argv[1]), argv, 2) {
            Ok(a) => settled_args(a),
            Err(e) => Err(e),
        }
    }
}

/// The texts of a command line.
pub open spec fn texts(argv: Seq<String>) -> Seq<Seq<char>> {
    argv.map_values(|s: String| s@)
}

fn apply_flag(a: &mut Args, flag: &[char], value: &String, i: usize, argv: Ghost<Seq<Seq<char>>>) -> (r:
    Result<(), ArgsFault>)
    requires
        i + 1 < argv@.len(),
        i + 1 <= usize::MAX,
        flag@ == argv@[i as int],
        value@ == argv@[i + 1],
    ensures
        match flag_step(old(a)@, argv@, i as int) {
            Ok(next) => r is Ok && final(a)@ == next,
            Err(e) => r == Err::<(), ArgsFault>(e),
        },
{
    let at: usize = i + 1;
    let text = chars_of(value.as_str());
    if is_text(flag, "--mode") {
        if a.write {
            let (kind, arg) = cut(text.as_slice(), ':');
            match arg {
                None => {
                    return Err(ArgsFault::WriteNeedsRing(at));
                },
                Some(shape) => {
                    if !is_text(kind, "ring") {
                        return Err(ArgsFault::UnknownWriteMode(at));
                    }
                    match parse_ring_spec(shape) {
                        Err(e) => {
                            return Err(ArgsFault::BadRing(at, e));
                        },
                        Ok(c) => {
                            a.wconfig = Some(c);
                        },
                    }
                },
            }
        } else {
            match Mode::parse(value.as_str()) {
                Err(e) => {
                    return Err(ArgsFault::BadMode(at, e));
                },
                Ok(m) => {
                    a.mode = Some(m);
                },
            }
        }
    } else if is_text(flag, "--label") {
        a.label = value.clone();
    } else if is_text(flag, "--offset") {
        match parse_plain_number(text.as_slice(), u64::MAX) {
            Err(e) => {
                return Err(ArgsFault::BadNumber(at, e));
            },
            Ok(n) => {
                a.offset = n;
            },
        }
    } else if is_text(flag, "--length") {
        match parse_plain_number(text.as_slice(), u64::MAX) {
            Err(e) => {
                return Err(ArgsFault::BadNumber(at, e));
            },
            Ok(n) => {
                a.length = n;
            },
        }
    } else if is_text(flag, "--record") {
        match parse_plain_number(text.as_slice(), usize::MAX as u64) {
            Err(e) => {
                return Err(ArgsFault::BadNumber(at, e));
            },
            Ok(n) => {
                a.record = n as usize;
            },
        }
    } else {
        return Err(ArgsFault::UnknownArgument(i));
    }
    Ok(())
}

/// Reads a command line, without the program's name.
pub fn parse_args(argv: &[String]) -> (r: Result<Args, ArgsFault>)
    ensures
        match args_of(texts(argv@)) {
            Ok(a) => r is Ok && r->Ok_0@ == a,
            Err(e) => r is Err && r->Err_0 == e,
        },
{
    let ghost all = texts(argv@);
    let n: usize = argv.len();
    if n == 0 {
        return Err(ArgsFault::Usage);
    }
    let sub = chars_of(argv[0].as_str());
    let write = is_text(sub.as_slice(), "write");
    if !write && !is_text(sub.as_slice(), "read") {
        return Err(ArgsFault::UnknownSubcommand);
    }
    if n == 1 {
        return Err(ArgsFault::Usage);
    }
    let mut a = Args {
        write,
        path: argv[1].clone(),
        mode: None,
        wconfig: None,
        label: String::new(),
        offset: 0,
        length: 0,
        record: 4096,
        header: false,
    };
    assert(a@.label =~= Seq::<char>::empty());
    assert(a@ == bare_args(all[0] == "write"@, all[1]));
    let mut i: usize = 2;
    while i < n
        invariant
            2 <= i <= n,
            n == argv@.len(),
            all == texts(argv@),
            flags_from(bare_args(all[0] == "write"@, all[1]), all, 2) == flags_from(
                a@,
                all,
                i as int,
            ),
            args_of(all) == (match flags_from(
                bare_args(all[0] == "write"@, all[1]),
                all,
                2,
            ) {
                Ok(b) => settled_args(b),
                Err(e) => Err(e),
            }),
        decreases n - i,
    {
        let flag = chars_of(argv[i].as_str());
        assert(flag@ == all[i as int]);
        if is_text(flag.as_slice(), "--header") {
            a.header = true;
            i += 1;
        } else {
            if n - i < 2 {
                return Err(ArgsFault::MissingValue(i));
            }
            match apply_flag(&mut a, flag.as_slice(), &argv[i + 1], i, Ghost(all)) {
                Ok(_) => {},
                Err(e) => {
                    return Err(e);
                },
            }
            i += 2;
        }
    }
    if a.record < 8 || a.record % 8 != 0 {
        return Err(ArgsFault::RecordNotWords);
    }
    if a.write {
        if a.length == 0 {
            return Err(ArgsFault::LengthRequired);
        }
        if a.offset != 0 {
            return Err(ArgsFault::WriteTakesNoOffset);
        }
        if a.wconfig.is_none() {
            a.wconfig = Some(SeqWriterConfig::default());
        }
    } else if a.mode.is_none() {
        a.mode = Some(Mode::Buffered(8192));
    }
    Ok(a)
}

/// How many bytes to read of a file of `file_size` bytes from `offset` on, if
/// `length` bytes are wanted, or all for zero. It is `None` if the offset is not
/// inside the file.
pub fn read_window(offset: u64, length: u64, file_size: u64) -> (r: Option<u64>)
    ensures
        r == (if offset >= file_size {
            None
        } else if length == 0 || length > file_size - offset {
            Some((file_size - offset) as u64)
        } else {
            Some(length)
        }),
{
    if offset >= file_size {
        None
    } else {
        let left: u64 = file_size - offset;
        if length == 0 || length > left {
            Some(left)
        } else {
            Some(length)
        }
    }
}

/// Whether another record of `record` bytes fits behind `done` bytes, if `want`
/// are wanted in all.
pub fn another_fits(done: u64, record: usize, want: u64) -> (r: bool)
    ensures
        r == (done + record <= want),
{
    done <= want && record as u64 <= want - done
}

/// One step of a xorshift generator.
pub open spec fn scrambled(x: u64) -> u64 {
    let a = x ^ (x << 13);
    let b = a ^ (a >> 7);
    b ^ (b << 17)
}

/// `n` words of the generator, which is in the state `x`.
pub open spec fn words_from(x: u64, n: nat) -> Seq<u8>
    decreases n,
{
    if n == 0 {
        Seq::empty()
    } else {
        le64(scrambled(x)) + words_from(scrambled(x), (n - 1) as nat)
    }
}

/// The state of the generator for the record at `offset`.
pub open spec fn seed_of(offset: u64) -> u64 {
    ((offset * 0x9e37_79b9_7f4a_7c15 + 1) % 0x1_0000_0000_0000_0000) as u64
}

/// The pattern of a record of `record` bytes at `offset`: words that differ from
/// one offset to the next. Bytes behind the last whole word are zero.
pub fn fill_pattern(record: usize, offset: u64) -> (r: Vec<u8>)
    ensures
        r@ == words_from(seed_of(offset), (record / 8) as nat) + crate::bytes::zeros(
            (record % 8) as nat,
        ),
{
    let mut x: u64 = offset.wrapping_mul(0x9e37_79b9_7f4a_7c15).wrapping_add(1);
    assert(x == seed_of(offset)) by {
        let p = offset * 0x9e37_79b9_7f4a_7c15;
        let m: int = 0x1_0000_0000_0000_0000;
        vstd::arithmetic::div_mod::lemma_fundamental_div_mod(p as int, m);
        vstd::arithmetic::div_mod::lemma_add_mod_noop(p as int, 1, m);
    }
    let mut w = Writer::new();
    let n: usize = record / 8;
    let mut i: usize = 0;
    let ghost goal = words_from(x, n as nat);
    assert(w@ + goal =~= goal);
    while i < n
        invariant
            i <= n,
            goal == w@ + words_from(x, (n - i) as nat),
        decreases n - i,
    {
        let ghost before = w@;
        let ghost y = x;
        let a: u64 = x ^ (x << 13);
        let b: u64 = a ^ (a >> 7);
        x = b ^ (b << 17);
        assert(x == scrambled(y));
        w.write_u64(x);
        assert(before + (le64(x) + words_from(x, (n - i - 1) as nat)) =~= w@ + words_from(
            x,
            (n - i - 1) as nat,
        ));
        i += 1;
    }
    assert(w@ + words_from(x, 0) =~= w@);
    let mut out = w.into_bytes();
    crate::bytes::push_zeros(&mut out, record % 8);
    out
}

/// The sum of the first words of some records, modulo the word size.
pub open spec fn folded(fold: u64, record: Seq<u8>) -> u64 {
    if record.len() >= 8 {
        ((fold + u64_at(record, 0)) % 0x1_0000_0000_0000_0000) as u64
    } else {
        fold
    }
}

/// What was read or written so far.
#[derive(Clone, Copy, Debug, PartialEq, Eq, Structural)]
pub struct Tally {
    /// How many bytes there were.
    pub bytes: u64,
    /// The sum of the records' first words.
    pub fold: u64,
}

impl Tally {
    /// Nothing so far.
    pub fn new() -> (r: Tally)
        ensures
            r.bytes == 0,
            r.fold == 0,
    {
        Tally { bytes: 0, fold: 0 }
    }

    /// Counts a record. One that is shorter than a word adds nothing to the sum.
    pub fn delivered(&mut self, record: &[u8])
        requires
            old(self).bytes + record@.len() <= u64::MAX,
        ensures
            final(self).bytes == old(self).bytes + record@.len(),
            final(self).fold == folded(old(self).fold, record@),
    {
        self.bytes = self.bytes + record.len() as u64;
        if record.len() >= 8 {
            let mut reader = Reader::new(record);
            match reader.read_u64() {
                Some(head) => {
                    self.fold = self.fold.wrapping_add(head);
                },
                None => {},
            }
        }
    }
}

/// Where the next record lies in a block that was served up to `pos`, and
/// whether a new block has to be read for it.
pub fn next_in_block(pos: usize, record: usize, block: usize) -> (r: (bool, usize))
    requires
        record <= block,
        pos <= block,
    ensures
        r.0 == (pos + record > block),
        r.1 == (if pos + record > block {
            0
        } else {
            pos
        }),
        r.1 + record <= block,
{
    if record > block - pos {
        (true, 0)
    } else {
        (false, pos)
    }
}

/// The words of the pattern never repeat one another's states: from two different
/// states the generator goes to two different ones, and never to or from zero.
pub proof fn law_pattern_words_stay_apart(x: u64, y: u64)
    requires
        x != y,
    ensures
        scrambled(x) != scrambled(y),
        scrambled(0) == 0,
{
    let (a, c) = (x ^ (x << 13), y ^ (y << 13));
    let (b, d) = (a ^ (a >> 7), c ^ (c >> 7));
    assert(x ^ (x << 13) == y ^ (y << 13) ==> x == y) by (bit_vector);
    assert(a ^ (a >> 7) == c ^ (c >> 7) ==> a == c) by (bit_vector);
    assert(b ^ (b << 17) == d ^ (d << 17) ==> b == d) by (bit_vector);
    assert(scrambled(0) == 0) by (bit_vector);
}

/// A word is made from the one before in three steps: it is combined with itself
/// times 2^13, the result with itself divided by 2^7, and that with itself times
/// 2^17, each product cut to 64 bits.
pub proof fn law_pattern_word_comes_from_the_one_before(x: u64, a: u64, b: u64)
    requires
        a == x ^ ((x * 8192) % 0x1_0000_0000_0000_0000) as u64,
        b == a ^ (a / 128),
    ensures
        scrambled(x) == b ^ ((b * 131072) % 0x1_0000_0000_0000_0000) as u64,
{
    assert(x << 13 == ((x * 8192) % 0x1_0000_0000_0000_0000) as u64) by (bit_vector);
    assert(a >> 7 == a / 128) by (bit_vector);
    assert(b << 17 == ((b * 131072) % 0x1_0000_0000_0000_0000) as u64) by (bit_vector);
}

/// A pattern is its first word, and then the pattern from there on.
pub proof fn law_pattern_is_word_after_word(x: u64, n: nat)
    ensures
        words_from(x, 0).len() == 0,
        words_from(x, n).len() == 8 * n,
        n > 0 ==> words_from(x, n).take(8) == le64(scrambled(x)),
        n > 0 ==> words_from(x, n).skip(8) == words_from(scrambled(x), (n - 1) as nat),
    decreases n,
{
    if n > 0 {
        law_pattern_is_word_after_word(scrambled(x), (n - 1) as nat);
        crate::bytes::lemma_le64_len(scrambled(x));
        assert(words_from(x, n).take(8) =~= le64(scrambled(x)));
        assert(words_from(x, n).skip(8) =~= words_from(scrambled(x), (n - 1) as nat));
    }
}

/// The pattern of the first offset starts from one, and the start of each further
/// one is a fixed step ahead, around the end of the word.
pub proof fn law_pattern_starts_are_evenly_spaced(offset: u64)
    requires
        offset < u64::MAX,
    ensures
        seed_of(0) == 1,
        seed_of((offset + 1) as u64) == (seed_of(offset) + 0x9e37_79b9_7f4a_7c15)
            % 0x1_0000_0000_0000_0000,
{
    let m: int = 0x1_0000_0000_0000_0000;
    let k: int = 0x9e37_79b9_7f4a_7c15;
    let x = offset * k + 1;
    assert((offset + 1) * k + 1 == x + k) by (nonlinear_arith)
        requires
            x == offset * k + 1,
    ;
    vstd::arithmetic::div_mod::lemma_add_mod_noop(x, k, m);
    vstd::arithmetic::div_mod::lemma_small_mod(k as nat, m as nat);
}

/// A tally adds up the first words of the records, around the end of the word. One
/// too short to have a word adds nothing.
pub proof fn law_fold_adds_the_first_words(fold: u64, word: u64, rest: Seq<u8>, few: Seq<u8>)
    requires
        few.len() < 8,
    ensures
        fold + word <= u64::MAX ==> folded(fold, le64(word) + rest) == fold + word,
        fold + word > u64::MAX ==> folded(fold, le64(word) + rest) == fold + word
            - 0x1_0000_0000_0000_0000,
        folded(fold, few) == fold,
{
    crate::bytes::lemma_le64_len(word);
    assert((le64(word) + rest).subrange(0, 8) =~= le64(word));
    crate::bytes::lemma_u64_at(le64(word) + rest, 0, word);
}

} // verus!
