//! Memory use, as the kernel reports it in a process's status file.
use vstd::prelude::*;
use vstd::string::*;
use vstd::utf8::*;

use crate::metadata_encoding::text_of;
use crate::text::{decimal, decimal_reads_back};

verus! {

/// Whether a code point is white space, as Unicode has it.
pub open spec fn is_space_code(c: u32) -> bool {
    ||| 9 <= c <= 13
    ||| c == 32
    ||| c == 0x85
    ||| c == 0xa0
    ||| c == 0x1680
    ||| 0x2000 <= c <= 0x200a
    ||| c == 0x2028
    ||| c == 0x2029
    ||| c == 0x202f
    ||| c == 0x205f
    ||| c == 0x3000
}

/// Whether a character separates words.
pub open spec fn is_space(c: char) -> bool {
    is_space_code(c as u32)
}

/// Where the line at `at` ends: before the next line feed, or at the end.
pub open spec fn line_end(s: Seq<char>, at: int) -> int
    decreases s.len() - at,
{
    if at >= s.len() {
        s.len() as int
    } else if s[at] == '\n' {
        at
    } else {
        line_end(s, at + 1)
    }
}

/// Whether `name` stands at `at`, within the line that ends at `end`.
pub open spec fn stands_at(s: Seq<char>, at: int, end: int, name: Seq<char>) -> bool {
    at + name.len() <= end && s.subrange(at, at + name.len()) == name
}

/// Where the first line from `at` on starts that starts with `name`.
pub open spec fn find_line(s: Seq<char>, at: int, name: Seq<char>) -> Option<int>
    decreases s.len() - at,
{
    if at >= s.len() {
        None
    } else if stands_at(s, at, line_end(s, at), name) {
        Some(at)
    } else if line_end(s, at) < at || line_end(s, at) >= s.len() {
        None
    } else {
        find_line(s, line_end(s, at) + 1, name)
    }
}

/// The first place from `at` on, before `end`, where a word starts; else `end`.
pub open spec fn word_start(s: Seq<char>, at: int, end: int) -> int
    decreases end - at,
{
    if at >= end {
        end
    } else if is_space(s[at]) {
        word_start(s, at + 1, end)
    } else {
        at
    }
}

/// The first place from `at` on, before `end`, where a word has ended; else
/// `end`.
pub open spec fn word_end(s: Seq<char>, at: int, end: int) -> int
    decreases end - at,
{
    if at >= end || is_space(s[at]) {
        if at >= end { end } else { at }
    } else {
        word_end(s, at + 1, end)
    }
}

/// The number that decimal digits spell; none where another character is among
/// them or it does not fit in 64 bits.
pub open spec fn digits_value(s: Seq<char>) -> Option<nat>
    decreases s.len(),
{
    if s.len() == 0 {
        Some(0)
    } else {
        match digits_value(s.drop_last()) {
            None => None,
            Some(n) => if 48 <= s.last() as u32 <= 57 && 10 * n + (s.last() as u32 - 48)
                <= u64::MAX {
                Some((10 * n + (s.last() as u32 - 48)) as nat)
            } else {
                None
            },
        }
    }
}

/// The number that a word spells: digits, perhaps with a plus sign before them.
pub open spec fn word_value(s: Seq<char>) -> Option<nat> {
    if s.len() > 0 && s[0] == '+' {
        if s.len() > 1 { digits_value(s.skip(1)) } else { None }
    } else if s.len() > 0 {
        digits_value(s)
    } else {
        None
    }
}

/// The second word of the line from `at` to `end`, as a number.
pub open spec fn second_number(s: Seq<char>, at: int, end: int) -> Option<nat> {
    let from = word_start(s, word_end(s, word_start(s, at, end), end), end);
    if from >= end {
        None
    } else {
        word_value(s.subrange(from, word_end(s, from, end)))
    }
}

/// The bytes that the line named `name` reports in units of 1024; 0 where there
/// is no such number. A number of bytes is taken to 64 bits.
pub open spec fn reported_bytes(s: Seq<char>, name: Seq<char>) -> nat {
    match find_line(s, 0, name) {
        None => 0,
        Some(at) => match second_number(s, at, line_end(s, at)) {
            None => 0,
            Some(n) => n * 1024 % 0x1_0000_0000_0000_0000,
        },
    }
}

/// The same of the bytes of a status file; 0 where they are no UTF-8.
pub open spec fn reported(status: Seq<u8>, name: Seq<char>) -> nat {
    if valid_utf8(status) {
        reported_bytes(decode_utf8(status), name)
    } else {
        0
    }
}

/// "VmRSS:"
pub open spec fn rss_name() -> Seq<char> {
    seq!['V', 'm', 'R', 'S', 'S', ':']
}

/// "VmHWM:"
pub open spec fn peak_name() -> Seq<char> {
    seq!['V', 'm', 'H', 'W', 'M', ':']
}

fn space(c: char) -> (r: bool)
    ensures
        r == is_space(c),
{
    let code: u32 = c as u32;
    (9 <= code && code <= 13) || code == 32 || code == 0x85 || code == 0xa0 || code == 0x1680 || (
    0x2000 <= code && code <= 0x200a) || code == 0x2028 || code == 0x2029 || code == 0x202f || code
        == 0x205f || code == 0x3000
}

fn find_line_end(s: &[char], at: usize) -> (end: usize)
    requires
        at <= s.len(),
    ensures
        end == line_end(s@, at as int),
        at <= end <= s.len(),
{
    let mut i: usize = at;
    while i < s.len() && s[i] != '\n'
        invariant
            at <= i <= s.len(),
            line_end(s@, i as int) == line_end(s@, at as int),
        decreases s.len() - i,
    {
        i = i + 1;
    }
    i
}

fn starts_here(s: &[char], at: usize, end: usize, name: &[char]) -> (r: bool)
    requires
        at <= end <= s.len(),
    ensures
        r == stands_at(s@, at as int, end as int, name@),
{
    if end - at < name.len() {
        return false;
    }
    for i in 0..name.len()
        invariant
            at + name@.len() <= end <= s.len(),
            forall|j: int| 0 <= j < i ==> s@[at + j] == name@[j],
    {
        if s[at + i] != name[i] {
            assert(s@.subrange(at as int, at + name@.len())[i as int] != name@[i as int]);
            return false;
        }
    }
    assert(s@.subrange(at as int, at + name@.len()) =~= name@);
    true
}

fn find_named_line(s: &[char], name: &[char]) -> (line: Option<(usize, usize)>)
    ensures
        match line {
            Some((at, end)) => find_line(s@, 0, name@) == Some(at as int) && end == line_end(
                s@,
                at as int,
            ) && at <= end <= s.len(),
            None => find_line(s@, 0, name@) is None,
        },
{
    let mut at: usize = 0;
    while at < s.len()
        invariant
            at <= s.len(),
            find_line(s@, at as int, name@) == find_line(s@, 0, name@),
        decreases s.len() - at,
    {
        let end: usize = find_line_end(s, at);
        if starts_here(s, at, end, name) {
            return Some((at, end));
        }
        if end == s.len() {
            return None;
        }
        at = end + 1;
    }
    None
}

fn find_word_start(s: &[char], at: usize, end: usize) -> (i: usize)
    requires
        at <= end <= s.len(),
    ensures
        i == word_start(s@, at as int, end as int),
        at <= i <= end,
{
    let mut i: usize = at;
    while i < end && space(s[i])
        invariant
            at <= i <= end <= s.len(),
            word_start(s@, i as int, end as int) == word_start(s@, at as int, end as int),
        decreases end - i,
    {
        i = i + 1;
    }
    i
}

fn find_word_end(s: &[char], at: usize, end: usize) -> (i: usize)
    requires
        at <= end <= s.len(),
    ensures
        i == word_end(s@, at as int, end as int),
        at <= i <= end,
{
    let mut i: usize = at;
    while i < end && !space(s[i])
        invariant
            at <= i <= end <= s.len(),
            word_end(s@, i as int, end as int) == word_end(s@, at as int, end as int),
        decreases end - i,
    {
        i = i + 1;
    }
    i
}

proof fn digits_stay_none(s: Seq<char>, n: int)
    requires
        0 <= n <= s.len(),
        digits_value(s.take(n)) is None,
    ensures
        digits_value(s) is None,
    decreases s.len() - n,
{
    if n < s.len() {
        assert(s.take(n + 1).drop_last() =~= s.take(n));
        digits_stay_none(s, n + 1);
    } else {
        assert(s.take(n) =~= s);
    }
}

fn read_digits(s: &[char], from: usize, to: usize) -> (value: Option<u64>)
    requires
        from <= to <= s.len(),
    ensures
        match value {
            Some(n) => digits_value(s@.subrange(from as int, to as int)) == Some(n as nat),
            None => digits_value(s@.subrange(from as int, to as int)) is None,
        },
{
    let ghost word = s@.subrange(from as int, to as int);
    let mut n: u64 = 0;
    assert(word.take(0) =~= Seq::empty());
    for i in from..to
        invariant
            from <= to <= s.len(),
            word == s@.subrange(from as int, to as int),
            digits_value(word.take(i - from)) == Some(n as nat),
    {
        let b: u32 = s[i] as u32;
        proof {
            assert(word.take(i - from + 1).drop_last() =~= word.take(i - from));
            assert(word.take(i - from + 1).last() as u32 == b);
        }
        if b < 48 || b > 57 || n > (u64::MAX - (b - 48) as u64) / 10 {
            proof {
                assert(digits_value(word.take(i - from + 1)) is None);
                digits_stay_none(word, i - from + 1);
            }
            return None;
        }
        n = 10 * n + (b - 48) as u64;
    }
    assert(word.take(to - from) =~= word);
    Some(n)
}

fn read_word(s: &[char], from: usize, to: usize) -> (value: Option<u64>)
    requires
        from <= to <= s.len(),
    ensures
        match value {
            Some(n) => word_value(s@.subrange(from as int, to as int)) == Some(n as nat),
            None => word_value(s@.subrange(from as int, to as int)) is None,
        },
{
    let ghost word = s@.subrange(from as int, to as int);
    if from == to {
        return None;
    }
    assert(word[0] == s@[from as int]);
    if s[from] == '+' {
        if to - from == 1 {
            return None;
        }
        assert(word.skip(1) =~= s@.subrange(from + 1, to as int));
        return read_digits(s, from + 1, to);
    }
    read_digits(s, from, to)
}

fn read_reported(status: &[char], name: &[char]) -> (bytes: u64)
    ensures
        bytes == reported_bytes(status@, name@),
{
    match find_named_line(status, name) {
        None => 0,
        Some((at, end)) => {
            let first: usize = find_word_start(status, at, end);
            let gap: usize = find_word_end(status, first, end);
            let from: usize = find_word_start(status, gap, end);
            if from >= end {
                return 0;
            }
            let to: usize = find_word_end(status, from, end);
            match read_word(status, from, to) {
                None => 0,
                Some(n) => n.wrapping_mul(1024),
            }
        },
    }
}

/// The characters of a text.
fn chars_of(text: &String) -> (chars: Vec<char>)
    ensures
        chars@ == text@,
{
    let n: usize = text.as_str().unicode_len();
    let mut chars: Vec<char> = Vec::with_capacity(n);
    for i in 0..n
        invariant
            n == text@.len(),
            chars@ =~= text@.take(i as int),
    {
        chars.push(text.as_str().get_char(i));
    }
    assert(text@.take(n as int) =~= text@);
    chars
}

/// The memory that a process uses and the most it has used, in bytes, from its
/// status file.
pub fn memory_counters(status: &[u8]) -> (counters: (u64, u64))
    ensures
        counters.0 == reported(status@, rss_name()),
        counters.1 == reported(status@, peak_name()),
{
    let rss: [char; 6] = ['V', 'm', 'R', 'S', 'S', ':'];
    let peak: [char; 6] = ['V', 'm', 'H', 'W', 'M', ':'];
    assert(rss@ =~= rss_name());
    assert(peak@ =~= peak_name());
    let mut copy: Vec<u8> = Vec::with_capacity(status.len());
    copy.extend_from_slice(status);
    assert(copy@ =~= status@);
    match text_of(copy) {
        None => (0, 0),
        Some(text) => {
            let chars = chars_of(&text);
            (read_reported(chars.as_slice(), &rss), read_reported(chars.as_slice(), &peak))
        },
    }
}

/// The memory that a process uses, in bytes.
pub fn current_rss_bytes(status: &[u8]) -> (bytes: u64)
    ensures
        bytes == reported(status@, rss_name()),
{
    memory_counters(status).0
}

/// The most memory that a process has used, in bytes.
pub fn peak_rss_bytes(status: &[u8]) -> (bytes: u64)
    ensures
        bytes == reported(status@, peak_name()),
{
    memory_counters(status).1
}

/// Whether a line starts at `at`.
pub open spec fn starts_line(s: Seq<char>, at: int) -> bool {
    at == 0 || s[at - 1] == '\n'
}

/// A line goes on to the next line feed, or to the end where there is none.
pub proof fn line_ends_at_line_feed(s: Seq<char>, at: int)
    requires
        0 <= at <= s.len(),
    ensures
        at <= line_end(s, at) <= s.len(),
        forall|i: int| at <= i < line_end(s, at) ==> #[trigger] s[i] != '\n',
        line_end(s, at) < s.len() ==> s[line_end(s, at)] == '\n',
    decreases s.len() - at,
{
    if at < s.len() && s[at] != '\n' {
        line_ends_at_line_feed(s, at + 1);
    }
}

/// A word starts at the first character that is no space, and ends before the next
/// space.
pub proof fn words_lie_between_spaces(s: Seq<char>, at: int, end: int)
    requires
        0 <= at <= end <= s.len(),
    ensures
        at <= word_start(s, at, end) <= end,
        forall|i: int| at <= i < word_start(s, at, end) ==> is_space(#[trigger] s[i]),
        word_start(s, at, end) < end ==> !is_space(s[word_start(s, at, end)]),
        at <= word_end(s, at, end) <= end,
        forall|i: int| at <= i < word_end(s, at, end) ==> !is_space(#[trigger] s[i]),
        word_end(s, at, end) < end ==> is_space(s[word_end(s, at, end)]),
    decreases end - at,
{
    if at < end {
        words_lie_between_spaces(s, at + 1, end);
    }
}

/// The line found is the first that starts with the name; none is found where no line
/// does.
pub proof fn first_named_line_is_found(s: Seq<char>, from: int, name: Seq<char>)
    requires
        0 <= from <= s.len(),
        starts_line(s, from),
        name.len() > 0,
        !name.contains('\n'),
    ensures
        match find_line(s, from, name) {
            Some(at) => {
                &&& from <= at <= s.len() - name.len()
                &&& starts_line(s, at)
                &&& s.subrange(at, at + name.len()) == name
                &&& forall|i: int|
                    from <= i < at && #[trigger] starts_line(s, i) ==> s.subrange(i, i + name.len())
                        != name
            },
            None => forall|i: int|
                from <= i <= s.len() - name.len() && #[trigger] starts_line(s, i) ==> s.subrange(
                    i,
                    i + name.len(),
                ) != name,
        },
    decreases s.len() - from,
{
    if from < s.len() {
        line_ends_at_line_feed(s, from);
        let end = line_end(s, from);
        assert forall|i: int| from < i <= end implies !#[trigger] starts_line(s, i) by {
            assert(s[i - 1] != '\n');
        }
        if !stands_at(s, from, end, name) {
            if from <= s.len() - name.len() && s.subrange(from, from + name.len()) == name {
                let j = end - from;
                assert(s.subrange(from, from + name.len())[j] == s[end]);
                assert(name[j] == '\n');
                assert(false);
            }
            if end < s.len() {
                first_named_line_is_found(s, end + 1, name);
            }
        }
    }
}

/// Digits are no spaces, and decimal digits spell their number.
pub proof fn digits_spell_their_number(n: nat)
    requires
        n <= u64::MAX,
    ensures
        word_value(decimal(n)) == Some(n),
        forall|i: int| 0 <= i < decimal(n).len() ==> !is_space(#[trigger] decimal(n)[i]),
{
    decimal_reads_back(n);
    digits_are_read(decimal(n), n);
    assert forall|i: int| 0 <= i < decimal(n).len() implies !is_space(#[trigger] decimal(n)[i]) by {
        assert('0' <= decimal(n)[i] <= '9');
    }
}

proof fn digits_are_read(s: Seq<char>, n: nat)
    requires
        n <= u64::MAX,
        s == decimal(n),
    ensures
        digits_value(s) == Some(n),
    decreases n,
{
    decimal_reads_back(n);
    let t = s.drop_last();
    assert('0' <= s[s.len() - 1] <= '9');
    if n >= 10 {
        assert(t =~= decimal(n / 10));
        digits_are_read(t, n / 10);
    } else {
        assert(t =~= Seq::empty());
        assert(digits_value(t) == Some(0nat));
    }
    decimal_reads_back(n / 10);
}

proof fn word_ends_at(s: Seq<char>, at: int, end: int, stop: int)
    requires
        0 <= at <= stop <= end <= s.len(),
        forall|i: int| at <= i < stop ==> !is_space(#[trigger] s[i]),
        stop < end ==> is_space(s[stop]),
    ensures
        word_end(s, at, end) == stop,
    decreases stop - at,
{
    if at < stop {
        word_ends_at(s, at + 1, end, stop);
    }
}

proof fn word_starts_at(s: Seq<char>, at: int, end: int, start: int)
    requires
        0 <= at <= start <= end <= s.len(),
        forall|i: int| at <= i < start ==> is_space(#[trigger] s[i]),
        start < end ==> !is_space(s[start]),
    ensures
        word_start(s, at, end) == start,
    decreases start - at,
{
    if at < start {
        word_starts_at(s, at + 1, end, start);
    }
}

/// Where the first line that starts with the name goes on with blanks, a number and
/// then the line's end or another blank, 1024 times the number is reported.
pub proof fn number_in_line_is_reported(
    s: Seq<char>,
    name: Seq<char>,
    at: int,
    from: int,
    n: nat,
)
    requires
        name.len() > 0,
        forall|i: int| 0 <= i < name.len() ==> !is_space(#[trigger] name[i]),
        0 <= at,
        starts_line(s, at),
        at + name.len() < from,
        from + decimal(n).len() <= s.len(),
        s.subrange(at, at + name.len()) == name,
        forall|i: int| 0 <= i < at && #[trigger] starts_line(s, i) ==> s.subrange(i, i + name.len())
            != name,
        forall|i: int|
            at + name.len() <= i < from ==> is_space(#[trigger] s[i]) && s[i] != '\n',
        s.subrange(from, from + decimal(n).len()) == decimal(n),
        from + decimal(n).len() < s.len() ==> is_space(s[from + decimal(n).len()]),
        n * 1024 <= u64::MAX,
    ensures
        reported_bytes(s, name) == n * 1024,
{
    let word = decimal(n);
    let stop = from + word.len();
    let after = at + name.len();
    decimal_reads_back(n);
    digits_spell_their_number(n);
    assert forall|i: int| 0 <= i < name.len() implies #[trigger] name[i] != '\n' by {
        assert(!is_space(name[i]));
        assert(is_space('\n'));
    }
    assert(!name.contains('\n'));
    first_named_line_is_found(s, 0, name);
    match find_line(s, 0, name) {
        None => {
            assert(starts_line(s, at));
        },
        Some(found) => {
            assert(starts_line(s, found));
            assert(starts_line(s, at));
        },
    }
    assert(find_line(s, 0, name) == Some(at));
    let end = line_end(s, at);
    line_ends_at_line_feed(s, at);
    assert forall|i: int| at <= i < stop implies #[trigger] s[i] != '\n' by {
        if i < after {
            assert(s.subrange(at, after)[i - at] == s[i]);
            assert(name[i - at] != '\n');
        } else if i >= from {
            assert(s.subrange(from, stop)[i - from] == s[i]);
            assert(!is_space(word[i - from]));
            assert(is_space('\n'));
        }
    }
    assert(end >= stop);
    assert forall|i: int| at <= i < after implies !is_space(#[trigger] s[i]) by {
        assert(s.subrange(at, after)[i - at] == s[i]);
        assert(!is_space(name[i - at]));
    }
    assert forall|i: int| from <= i < stop implies !is_space(#[trigger] s[i]) by {
        assert(s.subrange(from, stop)[i - from] == s[i]);
        assert(!is_space(word[i - from]));
    }
    word_starts_at(s, at, end, at);
    word_ends_at(s, at, end, after);
    word_starts_at(s, after, end, from);
    word_ends_at(s, from, end, stop);
}

} // verus!
