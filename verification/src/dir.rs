//! The data directory: the names of its files, and what is in it.
//!
//! A replica's data directory holds logs, named `<decree>.log` after the first
//! decree that they can hold; checkpoints, named `<decree>.codex` after the last
//! decree that they contain; and `defunct.txt`, the highest configuration number
//! that is known to be over, as a little-endian `u32`.
//!
//! A decree in a name is plain decimal. When a name is read, its leading digits
//! count and the rest of the stem does not, so `12.log` and `12garbage.log` both
//! stand for decree 12. A name with the right extension and no leading digits
//! makes the whole directory unreadable: something else is writing there.

use vstd::prelude::*;

use crate::bytes::{le32, u32_at};
use crate::durability::{
    buf_views, dir_of, has_name, in_directory, law_directory_holds_its_files, lemma_opened_empty,
    lists_directory, live_file, open_ops, path_in, total_len, write_ops, DirView, Durability,
    FilePath, OpenMode, PathView,
};
use crate::marshal::{Reader, Writer};
use crate::path::{parent_of, same_dir};
use crate::sim::{
    crash_image, disk_after, flat_in, law_process_sees_each_operation, CrashPolicy, OpView,
};
use crate::source::Source;
use crate::text::{decimal, digit, lemma_decimal, number_string, number_text, value_of};

verus! {

/// The name of the file that holds the highest defunct configuration number.
pub const DEFUNCT_FILE: &'static str = "defunct.txt";

/// The extension of log files.
pub const LOG_EXT: &'static str = "log";

/// The extension of checkpoint files.
pub const CHECKPOINT_EXT: &'static str = "codex";

/// The name of the file with decree `decree` and extension `ext`.
pub open spec fn numbered_name(decree: u64, ext: Seq<char>) -> Seq<char> {
    number_text(decree as nat) + "."@ + ext
}

fn numbered_file_name(decree: u64, ext: &str) -> (r: String)
    ensures
        r@ == numbered_name(decree, ext@),
{
    let mut name = number_string(decree);
    name.append(".");
    name.append(ext);
    name
}

/// The name of the log that starts at `decree`.
pub fn log_file_name(decree: u64) -> (r: String)
    ensures
        r@ == numbered_name(decree, LOG_EXT@),
{
    numbered_file_name(decree, LOG_EXT)
}

/// The name of the checkpoint at `decree`.
pub fn checkpoint_file_name(decree: u64) -> (r: String)
    ensures
        r@ == numbered_name(decree, CHECKPOINT_EXT@),
{
    numbered_file_name(decree, CHECKPOINT_EXT)
}

/// What a name with the right extension stands for.
#[derive(Clone, Copy, Debug, PartialEq, Eq, Structural)]
pub enum ParsedName {
    /// The decree that the name starts with.
    Decree(u64),
    /// The name does not start with a number that fits a `u64`.
    Unparsable,
}

/// The character is a decimal digit.
pub open spec fn is_digit(c: char) -> bool {
    48 <= c as u32 && c as u32 <= 57
}

/// Number of digits that `s` starts with.
pub open spec fn leading_digits(s: Seq<char>) -> nat
    decreases s.len(),
{
    if s.len() > 0 && is_digit(s[0]) {
        1 + leading_digits(s.skip(1))
    } else {
        0
    }
}

/// The bytes of some digits.
pub open spec fn digit_bytes(s: Seq<char>) -> Seq<u8> {
    Seq::new(s.len(), |i: int| (s[i] as u32) as u8)
}

/// `name` is a stem, a dot and the extension `ext`, and does not start with a
/// dot.
pub open spec fn has_ext(name: Seq<char>, ext: Seq<char>) -> bool {
    let dot = name.len() - ext.len() - 1;
    &&& dot >= 0
    &&& name[dot] == '.'
    &&& name.skip(dot + 1) == ext
    &&& name[0] != '.'
}

/// What `name` stands for as a file with extension `ext`, if it is one.
pub open spec fn parsed_name(name: Seq<char>, ext: Seq<char>) -> Option<ParsedName> {
    if !has_ext(name, ext) {
        None
    } else {
        let stem = name.take(name.len() - ext.len() - 1);
        let n = leading_digits(stem);
        let value = value_of(digit_bytes(stem.take(n as int)), 10);
        if n == 0 || value > u64::MAX {
            Some(ParsedName::Unparsable)
        } else {
            Some(ParsedName::Decree(value as u64))
        }
    }
}

pub(crate) fn chars_of(s: &str) -> (r: Vec<char>)
    ensures
        r@ == s@,
{
    let n: usize = s.unicode_len();
    let mut out: Vec<char> = Vec::new();
    let mut i: usize = 0;
    while i < n
        invariant
            n == s@.len(),
            i <= n,
            out@ == s@.take(i as int),
        decreases n - i,
    {
        out.push(s.get_char(i));
        i += 1;
        assert(out@ =~= s@.take(i as int));
    }
    assert(s@.take(n as int) =~= s@);
    out
}

proof fn lemma_leading_digits(s: Seq<char>, n: int)
    requires
        0 <= n <= s.len(),
        forall|i: int| 0 <= i < n ==> is_digit(#[trigger] s[i]),
        n < s.len() ==> !is_digit(s[n]),
    ensures
        leading_digits(s) == n,
    decreases s.len(),
{
    if n > 0 {
        let t = s.skip(1);
        assert forall|i: int| 0 <= i < n - 1 implies is_digit(#[trigger] t[i]) by {
            assert(t[i] == s[i + 1]);
        }
        assert(is_digit(s[0]));
        lemma_leading_digits(t, n - 1);
    }
}

/// What `name` stands for as a file with extension `ext`. It is `None` for a
/// name without that extension, and for one that starts with a dot.
pub fn parse_numbered_name(name: &str, ext: &str) -> (r: Option<ParsedName>)
    ensures
        r == parsed_name(name@, ext@),
{
    let chars = chars_of(name);
    let tail = chars_of(ext);
    if chars.len() <= tail.len() {
        return None;
    }
    let total: usize = chars.len();
    let dot: usize = total - tail.len() - 1;
    if chars[dot] != '.' || chars[0] == '.' {
        return None;
    }
    let mut i: usize = 0;
    while i < tail.len()
        invariant
            i <= tail@.len(),
            chars@ == name@,
            tail@ == ext@,
            total == chars@.len(),
            dot + 1 + tail@.len() == total,
            forall|j: int| 0 <= j < i ==> chars@[dot + 1 + j] == tail@[j],
        decreases tail@.len() - i,
    {
        if chars[dot + 1 + i] != tail[i] {
            assert(name@.skip(dot + 1)[i as int] != ext@[i as int]);
            return None;
        }
        i += 1;
    }
    assert(name@.skip(dot + 1) =~= ext@);
    let ghost stem = name@.take(dot as int);
    let mut n: usize = 0;
    let mut value: u64 = 0;
    let mut overflow: bool = false;
    assert(digit_bytes(stem.take(0)) =~= Seq::empty());
    while n < dot && 48 <= chars[n] as u32 && chars[n] as u32 <= 57
        invariant
            n <= dot,
            dot < chars@.len(),
            chars@ == name@,
            stem == name@.take(dot as int),
            forall|j: int| 0 <= j < n ==> is_digit(#[trigger] stem[j]),
            overflow ==> value_of(digit_bytes(stem.take(n as int)), 10) > u64::MAX,
            !overflow ==> value == value_of(digit_bytes(stem.take(n as int)), 10),
        decreases dot - n,
    {
        let d: u64 = (chars[n] as u32 - 48) as u64;
        proof {
            let next = digit_bytes(stem.take(n + 1));
            assert(next.drop_last() =~= digit_bytes(stem.take(n as int)));
            assert(next.last() == (stem[n as int] as u32) as u8);
            assert(stem[n as int] == chars@[n as int]);
            assert(digit(next.last()) == d);
        }
        if !overflow {
            match value.checked_mul(10) {
                Some(m) => match m.checked_add(d) {
                    Some(v) => {
                        value = v;
                    },
                    None => {
                        overflow = true;
                    },
                },
                None => {
                    overflow = true;
                },
            }
        }
        n += 1;
    }
    proof {
        if n < dot {
            assert(stem[n as int] == chars@[n as int]);
        }
        lemma_leading_digits(stem, n as int);
    }
    if n == 0 || overflow {
        Some(ParsedName::Unparsable)
    } else {
        Some(ParsedName::Decree(value))
    }
}

/// A file name and the decree that it was made from stand for each other.
pub proof fn law_file_names_round_trip(decree: u64, ext: Seq<char>)
    ensures
        parsed_name(numbered_name(decree, ext), ext) == Some(ParsedName::Decree(decree)),
{
    reveal_strlit(".");
    let name = numbered_name(decree, ext);
    let digits = decimal(decree as nat);
    let text = number_text(decree as nat);
    lemma_decimal(decree as nat);
    let dot = name.len() - ext.len() - 1;
    assert(dot == digits.len());
    assert(name.skip(dot + 1) =~= ext);
    let stem = name.take(dot);
    assert(stem =~= text);
    assert forall|i: int| 0 <= i < stem.len() implies is_digit(#[trigger] stem[i]) by {
        assert(48 <= digits[i] <= 57);
    }
    lemma_leading_digits(stem, stem.len() as int);
    assert(stem.take(stem.len() as int) =~= stem);
    assert(digit_bytes(stem) =~= digits) by {
        assert forall|i: int| 0 <= i < digits.len() implies digit_bytes(stem)[i] == digits[i] by {
            assert(48 <= digits[i] <= 57);
        }
    }
    assert(name[0] == text[0]);
    assert(48 <= digits[0] <= 57);
}

/// The text before the extension of a name.
spec fn stem_of(name: Seq<char>, ext: Seq<char>) -> Seq<char> {
    name.take(name.len() - ext.len() - 1)
}

proof fn lemma_joined(stem: Seq<char>, ext: Seq<char>)
    ensures
        ({
            let name = stem + "."@ + ext;
            &&& name.len() == stem.len() + 1 + ext.len()
            &&& stem.len() > 0 && stem[0] != '.' ==> has_ext(name, ext)
            &&& stem_of(name, ext) == stem
        }),
{
    reveal_strlit(".");
    let name = stem + "."@ + ext;
    assert(name.skip(stem.len() as int + 1) =~= ext);
    assert(stem_of(name, ext) =~= stem);
}

proof fn lemma_number_text(n: nat)
    ensures
        number_text(n).len() > 0,
        forall|i: int| 0 <= i < number_text(n).len() ==> is_digit(#[trigger] number_text(n)[i]),
        value_of(digit_bytes(number_text(n)), 10) == n,
{
    let digits = decimal(n);
    let text = number_text(n);
    lemma_decimal(n);
    assert forall|i: int| 0 <= i < text.len() implies is_digit(#[trigger] text[i]) by {
        assert(48 <= digits[i] <= 57);
    }
    assert(digit_bytes(text) =~= digits) by {
        assert forall|i: int| 0 <= i < digits.len() implies digit_bytes(text)[i] == digits[i] by {
            assert(48 <= digits[i] <= 57);
        }
    }
}

/// A name that starts with a number stands for it, whatever follows the number
/// before the extension, as long as it is no digit. A number that is too large
/// makes the name unreadable.
pub proof fn law_leading_number_is_the_decree(n: nat, junk: Seq<char>, ext: Seq<char>)
    requires
        junk.len() > 0 ==> !(48 <= junk[0] as u32 && junk[0] as u32 <= 57),
    ensures
        parsed_name(number_text(n) + junk + "."@ + ext, ext) == Some(
            if n <= 0xffff_ffff_ffff_ffff {
                ParsedName::Decree(n as u64)
            } else {
                ParsedName::Unparsable
            },
        ),
{
    let text = number_text(n);
    let stem = text + junk;
    lemma_number_text(n);
    assert(is_digit(text[0]));
    assert(stem[0] == text[0]);
    lemma_joined(stem, ext);
    assert forall|i: int| 0 <= i < text.len() implies is_digit(#[trigger] stem[i]) by {
        assert(stem[i] == text[i]);
    }
    if junk.len() > 0 {
        assert(stem[text.len() as int] == junk[0]);
    }
    lemma_leading_digits(stem, text.len() as int);
    assert(stem.take(text.len() as int) =~= text);
}

/// Zeros before the number make no difference.
pub proof fn law_leading_zero_does_not_count(name: Seq<char>, ext: Seq<char>)
    requires
        name.len() > ext.len() + 1,
        48 <= name[0] as u32,
        name[0] as u32 <= 57,
    ensures
        parsed_name(seq!['0'] + name, ext) == parsed_name(name, ext),
{
    let more = seq!['0'] + name;
    let dot = name.len() - ext.len() - 1;
    assert(more.skip(dot + 2) =~= name.skip(dot + 1));
    assert(more[dot + 1] == name[dot]);
    let stem = name.take(dot);
    let longer = more.take(dot + 1);
    assert(longer =~= seq!['0'] + stem);
    assert(longer.skip(1) =~= stem);
    let n = leading_digits(stem);
    assert(leading_digits(longer) == 1 + n);
    lemma_leading_bound(stem);
    assert(longer.take(n as int + 1) =~= seq!['0'] + stem.take(n as int));
    let a = digit_bytes(stem.take(n as int));
    let b = digit_bytes(longer.take(n as int + 1));
    assert(b =~= seq![48u8] + a);
    lemma_zero_in_front(a);
}

proof fn lemma_leading_bound(s: Seq<char>)
    ensures
        leading_digits(s) <= s.len(),
    decreases s.len(),
{
    if s.len() > 0 && is_digit(s[0]) {
        lemma_leading_bound(s.skip(1));
    }
}

proof fn lemma_zero_in_front(a: Seq<u8>)
    ensures
        value_of(seq![48u8] + a, 10) == value_of(a, 10),
    decreases a.len(),
{
    let b = seq![48u8] + a;
    if a.len() == 0 {
        assert(b.drop_last() =~= a);
        assert(value_of(a, 10) == 0);
    } else {
        assert(b.drop_last() =~= seq![48u8] + a.drop_last());
        lemma_zero_in_front(a.drop_last());
    }
}

/// A name with the extension that starts with anything but a digit or a dot is
/// unreadable.
pub proof fn law_name_without_a_number_is_unreadable(stem: Seq<char>, ext: Seq<char>)
    requires
        stem.len() > 0,
        !(48 <= stem[0] as u32 && stem[0] as u32 <= 57),
        stem[0] != '.',
    ensures
        parsed_name(stem + "."@ + ext, ext) == Some(ParsedName::Unparsable),
{
    lemma_joined(stem, ext);
}

/// A name without the extension is not looked at, nor is one that starts with a
/// dot.
pub proof fn law_other_names_do_not_count(name: Seq<char>, ext: Seq<char>)
    requires
        ({
            let dot = name.len() - ext.len() - 1;
            dot < 0 || name[dot] != '.' || name.skip(dot + 1) != ext || name[0] == '.'
        }),
    ensures
        parsed_name(name, ext) is None,
{
}

/// The decrees of two lists of names are those of the first and then those of the
/// second, and a single name has the decree that it stands for, or none.
pub proof fn law_names_are_read_one_by_one(
    a: Seq<Seq<char>>,
    b: Seq<Seq<char>>,
    name: Seq<char>,
    ext: Seq<char>,
)
    ensures
        decrees_of(a + b, ext) == decrees_of(a, ext) + decrees_of(b, ext),
        decrees_of(seq![name], ext) == (match parsed_name(name, ext) {
            Some(ParsedName::Decree(decree)) => seq![decree],
            _ => Seq::empty(),
        }),
    decreases b.len(),
{
    let one = seq![name];
    assert(one.drop_last() =~= Seq::empty());
    assert(decrees_of(Seq::empty(), ext) =~= Seq::empty());
    match parsed_name(name, ext) {
        Some(ParsedName::Decree(decree)) => {
            assert(decrees_of(one, ext) =~= seq![decree]);
        },
        _ => {},
    }
    if b.len() == 0 {
        assert(a + b =~= a);
        assert(decrees_of(a, ext) + decrees_of(b, ext) =~= decrees_of(a, ext));
    } else {
        law_names_are_read_one_by_one(a, b.drop_last(), name, ext);
        assert((a + b).drop_last() =~= a + b.drop_last());
        assert((a + b).last() == b.last());
        assert(decrees_of(a + b, ext) =~= decrees_of(a, ext) + decrees_of(b, ext));
    }
}

/// A directory cannot be read if and only if it has a name with the extension of a
/// log or a checkpoint that is unreadable.
pub proof fn law_stray_names_are_the_unreadable_ones(name: Seq<char>)
    ensures
        is_stray(name) <==> parsed_name(name, "log"@) == Some(ParsedName::Unparsable)
            || parsed_name(name, "codex"@) == Some(ParsedName::Unparsable),
{
}

/// Why a directory could not be read.
#[derive(Debug)]
pub enum DirError<E> {
    /// The file system failed.
    Io(E),
    /// A name with the extension of a log or checkpoint that does not start
    /// with a decree.
    UnparsableName(String),
}

impl<E> DirError<E> {
    /// The error in words. `cause` is the file system's own error in words.
    pub fn message(&self, cause: &str) -> (r: String)
        ensures
            r@ == (match *self {
                DirError::Io(_) => "data directory I/O error: "@ + cause@,
                DirError::UnparsableName(name) => "'"@ + name@
                    + "' does not start with a decree number"@,
            }),
    {
        match self {
            DirError::Io(_) => {
                let mut r = "data directory I/O error: ".to_owned();
                r.append(cause);
                r
            },
            DirError::UnparsableName(name) => {
                let mut r = "'".to_owned();
                r.append(name.as_str());
                r.append("' does not start with a decree number");
                r
            },
        }
    }
}

/// The decrees that some names stand for as files with extension `ext`.
pub open spec fn decrees_of(names: Seq<Seq<char>>, ext: Seq<char>) -> Seq<u64>
    decreases names.len(),
{
    if names.len() == 0 {
        Seq::empty()
    } else {
        let front = decrees_of(names.drop_last(), ext);
        match parsed_name(names.last(), ext) {
            Some(ParsedName::Decree(decree)) => front.push(decree),
            _ => front,
        }
    }
}

/// The name has the extension of a log or checkpoint, but no decree.
pub open spec fn is_stray(name: Seq<char>) -> bool {
    parsed_name(name, LOG_EXT@) == Some(ParsedName::Unparsable) || parsed_name(
        name,
        CHECKPOINT_EXT@,
    ) == Some(ParsedName::Unparsable)
}

/// Ascending.
pub open spec fn ascending(s: Seq<u64>) -> bool {
    forall|i: int, j: int| 0 <= i <= j < s.len() ==> s[i] <= s[j]
}

/// The decrees of the logs and checkpoints in a data directory.
#[derive(Debug)]
pub struct DataDir {
    /// The directory.
    pub path: String,
    /// Decrees of the logs, ascending.
    pub logs: Vec<u64>,
    /// Decrees of the checkpoints, ascending.
    pub checkpoints: Vec<u64>,
}

/// Puts `x` into an ascending list.
fn insert_ascending(list: &mut Vec<u64>, x: u64)
    requires
        ascending(old(list)@),
    ensures
        ascending(final(list)@),
        final(list)@.to_multiset() == old(list)@.to_multiset().insert(x),
{
    let mut at: usize = list.len();
    while at > 0 && list[at - 1] > x
        invariant
            at <= list@.len(),
            ascending(list@),
            forall|i: int| at <= i < list@.len() ==> list@[i] > x,
        decreases at,
    {
        at -= 1;
    }
    proof {
        vstd::seq_lib::to_multiset_insert(list@, at as int, x);
    }
    list.insert(at, x);
    proof {
        let l = list@;
        let o = old(list)@;
        assert forall|i: int, j: int| 0 <= i <= j < l.len() implies l[i] <= l[j] by {
            let a = if i < at {
                i
            } else {
                i - 1
            };
            let b = if j < at {
                j
            } else {
                j - 1
            };
            if i != at {
                assert(l[i] == o[a]);
            }
            if j != at {
                assert(l[j] == o[b]);
            }
        }
    }
}

/// A file of the directory stands for this decree.
pub open spec fn stands_for(
    history: Seq<OpView>,
    dir: DirView,
    ext: Seq<char>,
    decree: u64,
) -> bool {
    exists|name: Seq<char>| #[trigger]
        in_directory(history, dir, name) && parsed_name(name, ext) == Some(
            ParsedName::Decree(decree),
        )
}

impl Clone for DataDir {
    fn clone(&self) -> (r: DataDir)
        ensures
            r.path@ == self.path@,
            r.logs@ == self.logs@,
            r.checkpoints@ == self.checkpoints@,
    {
        DataDir {
            path: self.path.clone(),
            logs: vstd::slice::slice_to_vec(self.logs.as_slice()),
            checkpoints: vstd::slice::slice_to_vec(self.checkpoints.as_slice()),
        }
    }
}

impl Default for DataDir {
    fn default() -> (r: DataDir)
        ensures
            r.path@ == Seq::<char>::empty(),
            r.logs@ == Seq::<u64>::empty(),
            r.checkpoints@ == Seq::<u64>::empty(),
    {
        DataDir { path: String::new(), logs: Vec::new(), checkpoints: Vec::new() }
    }
}

/// Whether two lists hold the same numbers.
fn same_numbers(a: &Vec<u64>, b: &Vec<u64>) -> (r: bool)
    ensures
        r == (a@ == b@),
{
    if a.len() != b.len() {
        return false;
    }
    let mut i: usize = 0;
    while i < a.len()
        invariant
            i <= a@.len(),
            a@.len() == b@.len(),
            forall|k: int| 0 <= k < i ==> a@[k] == b@[k],
        decreases a@.len() - i,
    {
        if a[i] != b[i] {
            return false;
        }
        i += 1;
    }
    assert(a@ =~= b@);
    true
}

impl PartialEq for DataDir {
    fn eq(&self, other: &DataDir) -> (r: bool) {
        same_dir(&self.path, &other.path) && same_numbers(&self.logs, &other.logs)
            && same_numbers(&self.checkpoints, &other.checkpoints)
    }
}

impl vstd::std_specs::cmp::PartialEqSpecImpl for DataDir {
    open spec fn obeys_eq_spec() -> bool {
        true
    }

    open spec fn eq_spec(&self, other: &DataDir) -> bool {
        &&& dir_of(self.path@) == dir_of(other.path@)
        &&& self.logs@ == other.logs@
        &&& self.checkpoints@ == other.checkpoints@
    }
}

impl Eq for DataDir {

}

impl DataDir {
    /// The lists hold the decrees that the directory's files stand for, in
    /// ascending order, and each as often as there are files for it.
    pub open spec fn describes(self, history: Seq<OpView>) -> bool {
        &&& ascending(self.logs@)
        &&& ascending(self.checkpoints@)
        &&& exists|names: Seq<Seq<char>>|
            {
                &&& #[trigger] lists_directory(history, dir_of(self.path@), names)
                &&& self.logs@.to_multiset() == decrees_of(names, LOG_EXT@).to_multiset()
                &&& self.checkpoints@.to_multiset() == decrees_of(
                    names,
                    CHECKPOINT_EXT@,
                ).to_multiset()
            }
        &&& forall|decree: u64| #[trigger]
            self.logs@.contains(decree) <==> stands_for(
                history,
                dir_of(self.path@),
                LOG_EXT@,
                decree,
            )
        &&& forall|decree: u64| #[trigger]
            self.checkpoints@.contains(decree) <==> stands_for(
                history,
                dir_of(self.path@),
                CHECKPOINT_EXT@,
                decree,
            )
    }

    /// What a directory with these files holds.
    pub fn from_names(path: &str, names: &Vec<String>) -> (r: Result<DataDir, String>)
        ensures
            r is Ok <==> forall|i: int| 0 <= i < names@.len() ==> !is_stray((#[trigger] names@[i])@),
            r is Ok ==> {
                let views = names@.map_values(|s: String| s@);
                &&& r->Ok_0.path@ == path@
                &&& ascending(r->Ok_0.logs@)
                &&& r->Ok_0.logs@.to_multiset() == decrees_of(views, LOG_EXT@).to_multiset()
                &&& ascending(r->Ok_0.checkpoints@)
                &&& r->Ok_0.checkpoints@.to_multiset() == decrees_of(
                    views,
                    CHECKPOINT_EXT@,
                ).to_multiset()
            },
            r is Err ==> exists|i: int|
                {
                    &&& 0 <= i < names@.len()
                    &&& (#[trigger] names@[i])@ == r->Err_0@
                    &&& is_stray(names@[i]@)
                    &&& forall|j: int| 0 <= j < i ==> !is_stray((#[trigger] names@[j])@)
                },
    {
        let mut logs: Vec<u64> = Vec::new();
        let mut checkpoints: Vec<u64> = Vec::new();
        let ghost views = names@.map_values(|s: String| s@);
        let mut i: usize = 0;
        assert(views.take(0) =~= Seq::empty());
        while i < names.len()
            invariant
                i <= names@.len(),
                views == names@.map_values(|s: String| s@),
                forall|j: int| 0 <= j < i ==> !is_stray((#[trigger] names@[j])@),
                ascending(logs@),
                logs@.to_multiset() == decrees_of(views.take(i as int), LOG_EXT@).to_multiset(),
                ascending(checkpoints@),
                checkpoints@.to_multiset() == decrees_of(
                    views.take(i as int),
                    CHECKPOINT_EXT@,
                ).to_multiset(),
            decreases names@.len() - i,
        {
            let name = &names[i];
            proof {
                let next = views.take(i + 1);
                assert(next.drop_last() =~= views.take(i as int));
                assert(next.last() == name@);
            }
            match parse_numbered_name(name.as_str(), LOG_EXT) {
                Some(ParsedName::Decree(decree)) => {
                    proof {
                        decrees_of(views.take(i as int), LOG_EXT@).to_multiset_ensures();
                    }
                    insert_ascending(&mut logs, decree);
                },
                Some(ParsedName::Unparsable) => {
                    return Err(name.clone());
                },
                None => {},
            }
            match parse_numbered_name(name.as_str(), CHECKPOINT_EXT) {
                Some(ParsedName::Decree(decree)) => {
                    proof {
                        decrees_of(views.take(i as int), CHECKPOINT_EXT@).to_multiset_ensures();
                    }
                    insert_ascending(&mut checkpoints, decree);
                },
                Some(ParsedName::Unparsable) => {
                    return Err(name.clone());
                },
                None => {},
            }
            i += 1;
        }
        assert(views.take(i as int) =~= views);
        Ok(DataDir { path: path.to_owned(), logs, checkpoints })
    }

    /// Reads a directory.
    pub fn scan_with<D: Durability>(path: &str, durability: &D) -> (r: Result<
        DataDir,
        DirError<D::Error>,
    >)
        requires
            durability.ok(),
        ensures
            r is Ok ==> r->Ok_0.path@ == path@ && r->Ok_0.describes(durability.history()),
            r is Ok ==> forall|name: Seq<char>| #[trigger]
                in_directory(durability.history(), dir_of(path@), name) ==> !is_stray(name),
            r is Err && r->Err_0 is UnparsableName ==> is_stray(r->Err_0->UnparsableName_0@)
                && in_directory(durability.history(), dir_of(path@), r->Err_0->UnparsableName_0@),
            durability.reliable() ==> r is Ok || r->Err_0 is UnparsableName,
    {
        let names = match durability.read_dir(path) {
            Ok(names) => names,
            Err(e) => {
                return Err(DirError::Io(e));
            },
        };
        match DataDir::from_names(path, &names) {
            Ok(listing) => {
                proof {
                    let h = durability.history();
                    let views = names@.map_values(|s: String| s@);
                    assert(lists_directory(h, dir_of(path@), views)) by {
                        assert forall|i: int, j: int|
                            0 <= i < views.len() && 0 <= j < views.len() && i
                                != j implies views[i] != views[j] by {
                            if i < j {
                                assert(names@[i]@ != names@[j]@);
                            } else {
                                assert(names@[j]@ != names@[i]@);
                            }
                        }
                        assert forall|name: Seq<char>| #[trigger]
                            views.contains(name) <==> in_directory(h, dir_of(path@), name) by {
                            if views.contains(name) {
                                let i = choose|i: int| 0 <= i < views.len() && views[i] == name;
                                assert(names@[i]@ == name);
                            }
                            if in_directory(h, dir_of(path@), name) {
                                let i = choose|i: int|
                                    0 <= i < names@.len() && (#[trigger] names@[i])@ == name;
                                assert(views[i] == name);
                            }
                        }
                    }
                    assert forall|name: Seq<char>| #[trigger]
                        in_directory(h, dir_of(path@), name) implies !is_stray(name) by {
                        let i = choose|i: int|
                            0 <= i < names@.len() && (#[trigger] names@[i])@ == name;
                        assert(!is_stray(names@[i]@));
                    }
                    assert forall|decree: u64| #[trigger]
                        listing.logs@.contains(decree) <==> stands_for(
                            h,
                            dir_of(path@),
                            LOG_EXT@,
                            decree,
                        ) by {
                        lemma_listed(names@, listing.logs@, LOG_EXT@, decree);
                        lemma_listed_in(h, dir_of(path@), names@, LOG_EXT@, decree);
                    }
                    assert forall|decree: u64| #[trigger]
                        listing.checkpoints@.contains(decree) <==> stands_for(
                            h,
                            dir_of(path@),
                            CHECKPOINT_EXT@,
                            decree,
                        ) by {
                        lemma_listed(names@, listing.checkpoints@, CHECKPOINT_EXT@, decree);
                        lemma_listed_in(h, dir_of(path@), names@, CHECKPOINT_EXT@, decree);
                    }
                }
                Ok(listing)
            },
            Err(name) => Err(DirError::UnparsableName(name)),
        }
    }

    /// The path of the log that starts at `decree`.
    pub fn log_path(&self, decree: u64) -> (r: FilePath)
        ensures
            r@ == path_in(self.path@, numbered_name(decree, LOG_EXT@)),
    {
        FilePath { dir: self.path.clone(), name: log_file_name(decree) }
    }

    /// The path of the checkpoint at `decree`.
    pub fn checkpoint_path(&self, decree: u64) -> (r: FilePath)
        ensures
            r@ == path_in(self.path@, numbered_name(decree, CHECKPOINT_EXT@)),
    {
        FilePath { dir: self.path.clone(), name: checkpoint_file_name(decree) }
    }

    /// The decree of the newest checkpoint.
    pub fn newest_checkpoint(&self) -> (r: Option<u64>)
        ensures
            r == (if self.checkpoints@.len() == 0 {
                None
            } else {
                Some(self.checkpoints@.last())
            }),
    {
        let n: usize = self.checkpoints.len();
        if n == 0 {
            None
        } else {
            Some(self.checkpoints[n - 1])
        }
    }

    /// The log that would hold `decree`: the last one that starts there or
    /// before.
    pub fn log_holding(&self, decree: u64) -> (r: Option<u64>)
        ensures
            r == holding(self.logs@, decree),
    {
        let mut i: usize = self.logs.len();
        assert(self.logs@.take(i as int) =~= self.logs@);
        while i > 0
            invariant
                i <= self.logs@.len(),
                holding(self.logs@.take(i as int), decree) == holding(self.logs@, decree),
            decreases i,
        {
            let log: u64 = self.logs[i - 1];
            assert(self.logs@.take(i as int).last() == log);
            assert(self.logs@.take(i as int).drop_last() =~= self.logs@.take(i - 1));
            if log <= decree {
                return Some(log);
            }
            i -= 1;
        }
        None
    }
}

/// The last of some logs that starts at `decree` or before.
pub open spec fn holding(logs: Seq<u64>, decree: u64) -> Option<u64>
    decreases logs.len(),
{
    if logs.len() == 0 {
        None
    } else if logs.last() <= decree {
        Some(logs.last())
    } else {
        holding(logs.drop_last(), decree)
    }
}

/// Taking one name away takes its decree away.
proof fn lemma_decrees_without(names: Seq<Seq<char>>, ext: Seq<char>, k: int)
    requires
        0 <= k < names.len(),
    ensures
        decrees_of(names, ext).to_multiset() == (match parsed_name(names[k], ext) {
            Some(ParsedName::Decree(decree)) => decrees_of(
                names.remove(k),
                ext,
            ).to_multiset().insert(decree),
            _ => decrees_of(names.remove(k), ext).to_multiset(),
        }),
    decreases names.len(),
{
    broadcast use vstd::seq_lib::group_to_multiset_ensures;

    let rest = names.remove(k);
    if k == names.len() - 1 {
        assert(rest =~= names.drop_last());
    } else {
        lemma_decrees_without(names.drop_last(), ext, k);
        assert(rest.drop_last() =~= names.drop_last().remove(k));
        assert(rest.last() == names.last());
        assert(names.drop_last()[k] == names[k]);
        assert(decrees_of(names, ext).to_multiset() =~= (match parsed_name(names[k], ext) {
            Some(ParsedName::Decree(decree)) => decrees_of(rest, ext).to_multiset().insert(decree),
            _ => decrees_of(rest, ext).to_multiset(),
        }));
    }
}

/// The order of the names makes no difference to the decrees.
proof fn lemma_decrees_in_any_order(a: Seq<Seq<char>>, b: Seq<Seq<char>>, ext: Seq<char>)
    requires
        a.no_duplicates(),
        b.no_duplicates(),
        forall|name: Seq<char>| #[trigger] a.contains(name) <==> b.contains(name),
    ensures
        decrees_of(a, ext).to_multiset() == decrees_of(b, ext).to_multiset(),
    decreases a.len(),
{
    if a.len() == 0 {
        if b.len() > 0 {
            assert(b.contains(b[0]));
            assert(a.contains(b[0]));
        }
    } else {
        let name = a.last();
        assert(a.contains(name));
        assert(b.contains(name));
        let k = choose|k: int| 0 <= k < b.len() && b[k] == name;
        let x = a.remove(a.len() - 1);
        let y = b.remove(k);
        assert forall|n: Seq<char>| #[trigger] x.contains(n) <==> y.contains(n) by {
            if x.contains(n) {
                let i = choose|i: int| 0 <= i < x.len() && x[i] == n;
                assert(a[i] == n);
                assert(a.contains(n));
                let j = choose|j: int| 0 <= j < b.len() && b[j] == n;
                assert(j != k);
                assert(y[if j < k {
                    j
                } else {
                    j - 1
                }] == n);
            }
            if y.contains(n) {
                let i = choose|i: int| 0 <= i < y.len() && y[i] == n;
                assert(b[if i < k {
                    i
                } else {
                    i + 1
                }] == n);
                assert(b.contains(n));
                assert(a.contains(n));
                let j = choose|j: int| 0 <= j < a.len() && a[j] == n;
                assert(x[j] == n);
            }
        }
        lemma_decrees_in_any_order(x, y, ext);
        lemma_decrees_without(a, ext, a.len() - 1);
        lemma_decrees_without(b, ext, k);
    }
}

/// Two listings of a directory that describe the same state of the file system
/// are the same.
pub proof fn law_listing_is_determined(a: DataDir, b: DataDir, history: Seq<OpView>)
    requires
        a.describes(history),
        b.describes(history),
        dir_of(a.path@) == dir_of(b.path@),
    ensures
        a.logs@ == b.logs@,
        a.checkpoints@ == b.checkpoints@,
{
    let x = choose|names: Seq<Seq<char>>|
        {
            &&& #[trigger] lists_directory(history, dir_of(a.path@), names)
            &&& a.logs@.to_multiset() == decrees_of(names, LOG_EXT@).to_multiset()
            &&& a.checkpoints@.to_multiset() == decrees_of(names, CHECKPOINT_EXT@).to_multiset()
        };
    let y = choose|names: Seq<Seq<char>>|
        {
            &&& #[trigger] lists_directory(history, dir_of(b.path@), names)
            &&& b.logs@.to_multiset() == decrees_of(names, LOG_EXT@).to_multiset()
            &&& b.checkpoints@.to_multiset() == decrees_of(names, CHECKPOINT_EXT@).to_multiset()
        };
    lemma_decrees_in_any_order(x, y, LOG_EXT@);
    lemma_decrees_in_any_order(x, y, CHECKPOINT_EXT@);
    let leq = |m: u64, n: u64| m <= n;
    vstd::seq_lib::lemma_sorted_unique(a.logs@, b.logs@, leq);
    vstd::seq_lib::lemma_sorted_unique(a.checkpoints@, b.checkpoints@, leq);
}

/// A decree is among those of some names when one of the names stands for it.
proof fn lemma_decrees_contain(names: Seq<Seq<char>>, ext: Seq<char>, decree: u64)
    ensures
        decrees_of(names, ext).contains(decree) <==> exists|i: int|
            0 <= i < names.len() && parsed_name(#[trigger] names[i], ext) == Some(
                ParsedName::Decree(decree),
            ),
    decreases names.len(),
{
    if names.len() > 0 {
        let front = names.drop_last();
        lemma_decrees_contain(front, ext, decree);
        let f = decrees_of(front, ext);
        let all = decrees_of(names, ext);
        if all.contains(decree) {
            let k = choose|k: int| 0 <= k < all.len() && all[k] == decree;
            if k < f.len() {
                assert(f[k] == decree);
                assert(f.contains(decree));
                let i = choose|i: int|
                    0 <= i < front.len() && parsed_name(#[trigger] front[i], ext) == Some(
                        ParsedName::Decree(decree),
                    );
                assert(names[i] == front[i]);
            } else {
                assert(names[names.len() - 1] == names.last());
            }
        }
        if exists|i: int|
            0 <= i < names.len() && parsed_name(#[trigger] names[i], ext) == Some(
                ParsedName::Decree(decree),
            ) {
            let i = choose|i: int|
                0 <= i < names.len() && parsed_name(#[trigger] names[i], ext) == Some(
                    ParsedName::Decree(decree),
                );
            if i < front.len() {
                assert(front[i] == names[i]);
                let k = choose|k: int| 0 <= k < f.len() && f[k] == decree;
                assert(all[k] == decree);
            } else {
                assert(all[f.len() as int] == decree);
            }
        }
    }
}

proof fn lemma_listed(names: Seq<String>, list: Seq<u64>, ext: Seq<char>, decree: u64)
    requires
        list.to_multiset() == decrees_of(
            names.map_values(|s: String| s@),
            ext,
        ).to_multiset(),
    ensures
        list.contains(decree) <==> exists|i: int|
            0 <= i < names.len() && parsed_name((#[trigger] names[i])@, ext) == Some(
                ParsedName::Decree(decree),
            ),
{
    let views = names.map_values(|s: String| s@);
    list.to_multiset_ensures();
    decrees_of(views, ext).to_multiset_ensures();
    assert(list.contains(decree) <==> list.to_multiset().count(decree) > 0);
    assert(decrees_of(views, ext).contains(decree) <==> decrees_of(
        views,
        ext,
    ).to_multiset().count(decree) > 0);
    lemma_decrees_contain(views, ext, decree);
    if exists|i: int|
        0 <= i < views.len() && parsed_name(#[trigger] views[i], ext) == Some(
            ParsedName::Decree(decree),
        ) {
        let i = choose|i: int|
            0 <= i < views.len() && parsed_name(#[trigger] views[i], ext) == Some(
                ParsedName::Decree(decree),
            );
        assert(views[i] == names[i]@);
    }
    if exists|i: int|
        0 <= i < names.len() && parsed_name((#[trigger] names[i])@, ext) == Some(
            ParsedName::Decree(decree),
        ) {
        let i = choose|i: int|
            0 <= i < names.len() && parsed_name((#[trigger] names[i])@, ext) == Some(
                ParsedName::Decree(decree),
            );
        assert(views[i] == names[i]@);
    }
}

proof fn lemma_listed_in(
    h: Seq<OpView>,
    dir: DirView,
    names: Seq<String>,
    ext: Seq<char>,
    decree: u64,
)
    requires
        forall|i: int| 0 <= i < names.len() ==> in_directory(h, dir, (#[trigger] names[i])@),
        forall|name: Seq<char>| #[trigger] in_directory(h, dir, name) ==> has_name(names, name),
    ensures
        (exists|i: int|
            0 <= i < names.len() && parsed_name((#[trigger] names[i])@, ext) == Some(
                ParsedName::Decree(decree),
            )) <==> stands_for(h, dir, ext, decree),
{
    if exists|i: int|
        0 <= i < names.len() && parsed_name((#[trigger] names[i])@, ext) == Some(
            ParsedName::Decree(decree),
        ) {
        let i = choose|i: int|
            0 <= i < names.len() && parsed_name((#[trigger] names[i])@, ext) == Some(
                ParsedName::Decree(decree),
            );
        assert(in_directory(h, dir, names[i]@));
    }
    if exists|name: Seq<char>| #[trigger]
        in_directory(h, dir, name) && parsed_name(name, ext) == Some(ParsedName::Decree(decree)) {
        let name = choose|name: Seq<char>| #[trigger]
            in_directory(h, dir, name) && parsed_name(name, ext) == Some(
                ParsedName::Decree(decree),
            );
        let i = choose|i: int| 0 <= i < names.len() && (#[trigger] names[i])@ == name;
        assert(parsed_name(names[i]@, ext) == Some(ParsedName::Decree(decree)));
    }
}

/// The log that holds a decree is one of the logs, starts at the decree or
/// before, and none of the logs lies between the two.
pub proof fn law_holding_log_is_the_closest(logs: Seq<u64>, decree: u64)
    requires
        ascending(logs),
    ensures
        match holding(logs, decree) {
            Some(log) => logs.contains(log) && log <= decree && forall|i: int|
                0 <= i < logs.len() && #[trigger] logs[i] <= decree ==> logs[i] <= log,
            None => forall|i: int| 0 <= i < logs.len() ==> #[trigger] logs[i] > decree,
        },
    decreases logs.len(),
{
    if logs.len() > 0 {
        let front = logs.drop_last();
        assert(logs[logs.len() - 1] == logs.last());
        assert forall|i: int, j: int| 0 <= i <= j < front.len() implies front[i] <= front[j] by {
            assert(front[i] == logs[i] && front[j] == logs[j]);
        }
        law_holding_log_is_the_closest(front, decree);
        if logs.last() > decree {
            match holding(front, decree) {
                Some(log) => {
                    let k = choose|k: int| 0 <= k < front.len() && front[k] == log;
                    assert(logs[k] == log);
                    assert forall|i: int|
                        0 <= i < logs.len() && #[trigger] logs[i] <= decree implies logs[i]
                        <= log by {
                        assert(front[i] == logs[i]);
                    }
                },
                None => {
                    assert forall|i: int| 0 <= i < logs.len() implies #[trigger] logs[i]
                        > decree by {
                        if i < front.len() {
                            assert(front[i] == logs[i]);
                        }
                    }
                },
            }
        }
    }
}

/// The contents of the defunct file: a little-endian `u32`.
pub fn encode_defunct(highest_defunct_configuration_number: u32) -> (r: Vec<u8>)
    ensures
        r@ == le32(highest_defunct_configuration_number),
{
    let mut w = Writer::new();
    w.write_u32(highest_defunct_configuration_number);
    assert(w@ =~= le32(highest_defunct_configuration_number));
    w.into_bytes()
}

/// The number that the defunct file's contents stand for.
pub open spec fn defunct_of(buf: Seq<u8>) -> Option<u32> {
    if buf.len() < 4 {
        None
    } else {
        Some(u32_at(buf, 0))
    }
}

/// Reads the defunct file's contents. The first four bytes count, and whatever
/// follows them does not.
pub fn decode_defunct(buf: &[u8]) -> (r: Option<u32>)
    ensures
        r == defunct_of(buf@),
{
    let mut r = Reader::new(buf);
    r.read_u32()
}

/// What is written to the defunct file is read back, whatever follows it.
pub proof fn law_defunct_round_trips(n: u32, tail: Seq<u8>)
    ensures
        defunct_of(le32(n) + tail) == Some(n),
{
    crate::bytes::lemma_le32_len(n);
    let s = le32(n) + tail;
    assert(s.subrange(0, 4) =~= le32(n));
    crate::bytes::lemma_u32_at(s, 0, n);
}

/// The defunct file stands for its first four bytes as a number, the lowest first,
/// and for nothing if it has fewer.
pub proof fn law_defunct_is_the_first_word(buf: Seq<u8>)
    ensures
        buf.len() < 4 ==> defunct_of(buf) is None,
        buf.len() >= 4 ==> defunct_of(buf) is Some && defunct_of(buf)->Some_0 == buf[0] + 0x100
            * buf[1] + 0x1_0000 * buf[2] + 0x100_0000 * buf[3],
{
    if buf.len() >= 4 {
        crate::laws::law_u32_is_little_endian(buf, 0);
    }
}

/// The path of the defunct file.
pub open spec fn defunct_path(dir: Seq<char>) -> PathView {
    path_in(dir, DEFUNCT_FILE@)
}

/// Reads the defunct file. A file that is missing or too short gives nothing.
pub fn read_defunct_with<D: Durability>(dir: &str, durability: &mut D) -> (r: Result<
    Option<u32>,
    D::Error,
>)
    requires
        old(durability).ok(),
    ensures
        final(durability).ok(),
        r is Ok ==> r->Ok_0 == (match live_file(old(durability).history(), defunct_path(dir@)) {
            Some(bytes) => defunct_of(bytes),
            None => None,
        }),
        final(durability).history() == old(durability).history(),
        final(durability).reliable() == old(durability).reliable(),
        old(durability).reliable() ==> r is Ok,
{
    let path = FilePath::new(dir, DEFUNCT_FILE);
    let ghost h = durability.history();
    if !durability.file_exists(&path) {
        return Ok(None);
    }
    let file = match durability.open(&path, OpenMode::Read) {
        Ok(file) => file,
        Err(e) => {
            assert(durability.history() =~= h);
            return Err(e);
        },
    };
    assert(durability.history() =~= h);
    let mut reader = match durability.reader(&file) {
        Ok(reader) => reader,
        Err(e) => {
            return Err(e);
        },
    };
    let ghost bytes = reader.rest();
    match reader.read(4) {
        Ok(head) => {
            proof {
                reveal(u32_at);
            }
            Ok(decode_defunct(head.as_slice()))
        },
        Err(e) => Err(e),
    }
}

/// What writing the defunct file does.
pub open spec fn defunct_ops(history: Seq<OpView>, dir: Seq<char>, value: u32) -> Seq<OpView> {
    let path = defunct_path(dir);
    open_ops(history, path, OpenMode::Create) + seq![
        OpView::Write { path, offset: 0, data: le32(value) },
        OpView::SyncFile { path },
        OpView::SyncDir { dir: dir_of(dir) },
    ]
}

/// A defunct file that was written stands for its number, and so it does after
/// every crash. Files may be moved in other directories, and between them, but not
/// into or out of this one.
#[verifier::rlimit(40)]
pub proof fn law_written_defunct_file_is_safe(
    history: Seq<OpView>,
    dir: Seq<char>,
    value: u32,
    policy: CrashPolicy,
)
    requires
        dir.len() > 0,
        flat_in(history, dir_of(dir)),
    ensures
        ({
            let path = defunct_path(dir);
            let after = history + defunct_ops(history, dir, value);
            let left = crash_image(after, policy);
            &&& live_file(after, path) is Some
            &&& defunct_of(live_file(after, path)->Some_0) == Some(value)
            &&& left.contains_key(path)
            &&& defunct_of(left[path]) == Some(value)
        }),
{
    let path = defunct_path(dir);
    let opened = open_ops(history, path, OpenMode::Create);
    let a = history + opened;
    let write = OpView::Write { path, offset: 0, data: le32(value) };
    let sync = OpView::SyncFile { path };
    let name = OpView::SyncDir { dir: dir_of(dir) };
    let b = a.push(write);
    let c = b.push(sync);
    let d = c.push(name);
    assert(history + defunct_ops(history, dir, value) =~= d);
    crate::path::lemma_no_dir(dir);
    assert(crate::path::parent_of(path) == dir_of(dir));
    crate::laws::law_open_creates_or_empties(history, path, path);
    law_process_sees_each_operation(a, write, path);
    law_process_sees_each_operation(b, sync, path);
    law_process_sees_each_operation(c, name, path);
    let bytes = crate::sim::written(Seq::empty(), 0, le32(value));
    crate::bytes::lemma_le32_len(value);
    assert(bytes =~= le32(value) + Seq::<u8>::empty());
    law_defunct_round_trips(value, Seq::empty());
    assert(flat_in(c, dir_of(dir))) by {
        assert forall|i: int| 0 <= i < c.len() implies match #[trigger] c[i] {
            OpView::Rename { from, to } => (crate::path::parent_of(from) == dir_of(dir)) == (
            crate::path::parent_of(to) == dir_of(dir)),
            _ => true,
        } by {
            if i < history.len() {
                assert(c[i] == history[i]);
            } else if i < a.len() {
                assert(c[i] == opened[i - history.len()]);
            }
        }
    }
    crate::sim::law_sync_dir_makes_names_safe(c, path);
    let disk = disk_after(d);
    assert(b.push(sync).drop_last() =~= b);
    assert(c.push(name).drop_last() =~= c);
    crate::sim::law_names_are_ok(b);
    assert(crate::sim::settled(disk, path));
    crate::sim::law_settled_file_is_left_alone(d, path, policy);
}

/// The operation changes no file but `path`, and no name but its own.
pub open spec fn stays_at(op: OpView, path: PathView) -> bool {
    match op {
        OpView::Create { path: p } => p == path,
        OpView::Truncate { path: p, len } => p == path,
        OpView::Write { path: p, offset, data } => p == path,
        OpView::Rename { from, to } => false,
        OpView::Remove { path: p } => false,
        _ => true,
    }
}

/// Writes the defunct file and makes it safe. The file is overwritten in place:
/// a single word cannot be torn.
pub fn write_defunct_with<D: Durability>(dir: &str, value: u32, durability: &mut D) -> (r: Result<
    (),
    D::Error,
>)
    requires
        old(durability).ok(),
    ensures
        final(durability).ok(),
        r is Ok ==> final(durability).history() == old(durability).history() + defunct_ops(
            old(durability).history(),
            dir@,
            value,
        ),
        final(durability).reliable() == old(durability).reliable(),
        old(durability).reliable() ==> r is Ok,
        ({
            let before = old(durability).history();
            let after = final(durability).history();
            &&& before.len() <= after.len()
            &&& after.take(before.len() as int) == before
            &&& forall|i: int|
                before.len() <= i < after.len() ==> stays_at(#[trigger] after[i], defunct_path(dir@))
        }),
{
    let path = FilePath::new(dir, DEFUNCT_FILE);
    let ghost h = durability.history();
    assert(h.take(h.len() as int) =~= h);
    let file = match durability.open(&path, OpenMode::Create) {
        Ok(file) => file,
        Err(e) => {
            return Err(e);
        },
    };
    proof {
        lemma_opened_empty(h, path@);
    }
    let bytes = encode_defunct(value);
    let data: &[u8] = bytes.as_slice();
    let mut bufs: Vec<&[u8]> = Vec::new();
    bufs.push(data);
    proof {
        crate::bytes::lemma_le32_len(value);
        let views = buf_views(bufs@);
        assert(views =~= seq![le32(value)]);
        assert(views.skip(1) =~= Seq::empty());
        assert(total_len(views.skip(1)) == 0);
        assert(write_ops(path@, 4, views.skip(1)) =~= Seq::empty());
        assert(write_ops(path@, 0, views) =~= seq![
            OpView::Write { path: path@, offset: 0, data: le32(value) },
        ]);
    }
    match durability.write_at(&file, 0, bufs.as_slice()) {
        Ok(_) => {},
        Err(e) => {
            return Err(e);
        },
    }
    match durability.sync_file(&file) {
        Ok(_) => {},
        Err(e) => {
            return Err(e);
        },
    }
    match durability.sync_dir(dir) {
        Ok(_) => {
            assert(durability.history() =~= h + defunct_ops(h, dir@, value));
            Ok(())
        },
        Err(e) => Err(e),
    }
}

/// A listing of a directory is in ascending order. It holds the decree of every log
/// and checkpoint that is there, and no decree without such a file.
pub proof fn law_listing_holds_what_is_there(
    listing: DataDir,
    history: Seq<OpView>,
    path: PathView,
    decree: u64,
)
    requires
        listing.describes(history),
    ensures
        forall|i: int, j: int|
            0 <= i <= j < listing.logs@.len() ==> listing.logs@[i] <= listing.logs@[j],
        forall|i: int, j: int|
            0 <= i <= j < listing.checkpoints@.len() ==> listing.checkpoints@[i]
                <= listing.checkpoints@[j],
        ({
            let here = live_file(history, path) is Some && parent_of(path) == dir_of(
                listing.path@,
            );
            let read = Some(ParsedName::Decree(decree));
            &&& here && parsed_name(path.name, "log"@) == read ==> listing.logs@.contains(decree)
            &&& here && parsed_name(path.name, "codex"@) == read ==> listing.checkpoints@.contains(
                decree,
            )
        }),
        listing.logs@.contains(decree) ==> exists|p: PathView| #[trigger]
            live_file(history, p) is Some && parent_of(p) == dir_of(listing.path@) && parsed_name(
                p.name,
                "log"@,
            ) == Some(ParsedName::Decree(decree)),
        listing.checkpoints@.contains(decree) ==> exists|p: PathView| #[trigger]
            live_file(history, p) is Some && parent_of(p) == dir_of(listing.path@) && parsed_name(
                p.name,
                "codex"@,
            ) == Some(ParsedName::Decree(decree)),
{
    let dir = dir_of(listing.path@);
    law_directory_holds_its_files(history, dir, path.name);
    if listing.logs@.contains(decree) {
        assert(stands_for(history, dir, LOG_EXT@, decree));
        let name = choose|name: Seq<char>| #[trigger]
            in_directory(history, dir, name) && parsed_name(name, LOG_EXT@) == Some(
                ParsedName::Decree(decree),
            );
        law_directory_holds_its_files(history, dir, name);
    }
    if listing.checkpoints@.contains(decree) {
        assert(stands_for(history, dir, CHECKPOINT_EXT@, decree));
        let name = choose|name: Seq<char>| #[trigger]
            in_directory(history, dir, name) && parsed_name(name, CHECKPOINT_EXT@) == Some(
                ParsedName::Decree(decree),
            );
        law_directory_holds_its_files(history, dir, name);
    }
    if live_file(history, path) is Some && parent_of(path) == dir {
        assert(in_directory(history, dir, path.name));
        assert(stands_for(history, dir, LOG_EXT@, decree) ==> listing.logs@.contains(decree));
        assert(stands_for(history, dir, CHECKPOINT_EXT@, decree)
            ==> listing.checkpoints@.contains(decree));
    }
}

} // verus!
