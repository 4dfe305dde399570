//! The names of the log files in a store's directory: `db.log` is the
//! active file, a name that begins with `data` is a sealed segment, one
//! that begins with `compact` a compacted snapshot. Sealed and compacted
//! files carry the time of their making, so that their names sort by age.

use vstd::prelude::*;
use vstd::string::*;

verus! {

/// The name of the active file.
pub open spec fn active_name() -> Seq<char> {
    "db.log"@
}

/// Whether the name is that of a compacted snapshot.
pub open spec fn is_compact(name: Seq<char>) -> bool {
    "compact"@.is_prefix_of(name)
}

/// Whether the name is that of a sealed segment.
pub open spec fn is_sealed(name: Seq<char>) -> bool {
    "data"@.is_prefix_of(name)
}

/// Whether the file `name` is to go once the snapshot `keep` is written:
/// every snapshot and every sealed segment but `keep` itself.
pub open spec fn is_stale(name: Seq<char>, keep: Seq<char>) -> bool {
    (is_compact(name) || is_sealed(name)) && name != keep
}

/// Whether the file `name` is one of the store's log files: the active
/// file, a snapshot or a sealed segment.
pub open spec fn is_log(name: Seq<char>) -> bool {
    name == active_name() || is_compact(name) || is_sealed(name)
}

/// Whether `a` comes before `b` in the order of the dictionary, from index
/// `i` on, the characters before `i` being equal.
pub open spec fn precedes_from(a: Seq<char>, b: Seq<char>, i: int) -> bool
    decreases a.len() - i,
{
    if i < 0 || i >= b.len() {
        false
    } else if i >= a.len() {
        true
    } else if a[i] != b[i] {
        (a[i] as u32) < (b[i] as u32)
    } else {
        precedes_from(a, b, i + 1)
    }
}

/// Whether `a` comes before `b` in the order of the dictionary.
pub open spec fn precedes(a: Seq<char>, b: Seq<char>) -> bool {
    precedes_from(a, b, 0)
}

/// The decimal digit for `d`.
pub open spec fn digit(d: nat) -> char {
    if d == 0 {
        '0'
    } else if d == 1 {
        '1'
    } else if d == 2 {
        '2'
    } else if d == 3 {
        '3'
    } else if d == 4 {
        '4'
    } else if d == 5 {
        '5'
    } else if d == 6 {
        '6'
    } else if d == 7 {
        '7'
    } else if d == 8 {
        '8'
    } else {
        '9'
    }
}

/// The decimal numeral of `n`, without leading zeros.
pub open spec fn decimal(n: nat) -> Seq<char>
    decreases n,
{
    if n < 10 {
        seq![digit(n)]
    } else {
        decimal(n / 10).push(digit(n % 10))
    }
}

/// The name of the segment sealed at `millis`: `data-`, the numeral, `.log`.
pub open spec fn sealed_name(millis: nat) -> Seq<char> {
    "data-"@ + decimal(millis) + ".log"@
}

/// The name of the snapshot written at `millis`: `compact-`, the numeral,
/// `.log`.
pub open spec fn compact_name(millis: nat) -> Seq<char> {
    "compact-"@ + decimal(millis) + ".log"@
}

/// Tests whether `name` begins with `prefix`.
pub fn has_prefix(name: &str, prefix: &str) -> (r: bool)
    ensures
        r == prefix@.is_prefix_of(name@),
{
    let n: usize = prefix.unicode_len();
    if n > name.unicode_len() {
        return false;
    }
    let mut i: usize = 0;
    while i < n
        invariant
            i <= n,
            n == prefix@.len(),
            n <= name@.len(),
            forall|j: int| 0 <= j < i ==> name@[j] == prefix@[j],
        decreases n - i,
    {
        if name.get_char(i) != prefix.get_char(i) {
            proof {
                assert(name@.subrange(0, n as int)[i as int] == name@[i as int]);
            }
            return false;
        }
        i += 1;
    }
    proof {
        assert(prefix@ =~= name@.subrange(0, n as int));
    }
    true
}

/// Tests whether `a` comes before `b` in the order of the dictionary.
pub fn comes_before(a: &str, b: &str) -> (r: bool)
    ensures
        r == precedes(a@, b@),
{
    let la: usize = a.unicode_len();
    let lb: usize = b.unicode_len();
    let mut i: usize = 0;
    while i < lb
        invariant
            la == a@.len(),
            lb == b@.len(),
            i <= lb,
            precedes(a@, b@) == precedes_from(a@, b@, i as int),
        decreases lb - i,
    {
        if i >= la {
            return true;
        }
        let x: char = a.get_char(i);
        let y: char = b.get_char(i);
        if x != y {
            return x < y;
        }
        i += 1;
    }
    false
}

/// Tests whether the file `name` is a compacted snapshot.
pub fn names_compact(name: &str) -> (r: bool)
    ensures
        r == is_compact(name@),
{
    has_prefix(name, "compact")
}

/// Tests whether the file `name` is a sealed segment.
pub fn names_sealed(name: &str) -> (r: bool)
    ensures
        r == is_sealed(name@),
{
    has_prefix(name, "data")
}

/// Tests whether the file `name` is to be deleted once the snapshot `keep`
/// is written.
pub fn names_stale(name: &String, keep: &String) -> (r: bool)
    ensures
        r == is_stale(name@, keep@),
{
    (names_compact(name.as_str()) || names_sealed(name.as_str())) && !(*name == *keep)
}

/// Tests whether the file `name` is one of the store's log files.
pub fn names_log(name: &String) -> (r: bool)
    ensures
        r == is_log(name@),
{
    *name == active_file() || names_compact(name.as_str()) || names_sealed(name.as_str())
}

/// The name of the active file.
pub fn active_file() -> (r: String)
    ensures
        r@ == active_name(),
{
    String::from_str("db.log")
}

fn digit_text(d: u8) -> (r: &'static str)
    requires
        d < 10,
    ensures
        r@ == seq![digit(d as nat)],
{
    proof {
        reveal_strlit("0");
        reveal_strlit("1");
        reveal_strlit("2");
        reveal_strlit("3");
        reveal_strlit("4");
        reveal_strlit("5");
        reveal_strlit("6");
        reveal_strlit("7");
        reveal_strlit("8");
        reveal_strlit("9");
    }
    let r = match d {
        0 => "0",
        1 => "1",
        2 => "2",
        3 => "3",
        4 => "4",
        5 => "5",
        6 => "6",
        7 => "7",
        8 => "8",
        _ => "9",
    };
    proof {
        assert(r@ =~= seq![digit(d as nat)]);
    }
    r
}

fn append_decimal(out: &mut String, n: u128)
    ensures
        final(out)@ == old(out)@ + decimal(n as nat),
    decreases n,
{
    if n >= 10 {
        append_decimal(out, n / 10);
    }
    let d: u8 = (n % 10) as u8;
    out.append(digit_text(d));
    proof {
        assert(out@ =~= old(out)@ + decimal(n as nat));
    }
}

/// The name for the segment sealed at `millis` milliseconds.
pub fn sealed_file(millis: u128) -> (r: String)
    ensures
        r@ == sealed_name(millis as nat),
{
    let mut r = String::from_str("data-");
    append_decimal(&mut r, millis);
    r.append(".log");
    r
}

/// The name for the snapshot written at `millis` milliseconds.
pub fn compact_file(millis: u128) -> (r: String)
    ensures
        r@ == compact_name(millis as nat),
{
    let mut r = String::from_str("compact-");
    append_decimal(&mut r, millis);
    r.append(".log");
    r
}

/// The name made for a sealed segment is that of a sealed segment and of
/// nothing else.
pub proof fn lemma_sealed_name(millis: nat)
    ensures
        is_sealed(sealed_name(millis)),
        !is_compact(sealed_name(millis)),
        sealed_name(millis) != active_name(),
{
    reveal_strlit("data-");
    reveal_strlit("data");
    reveal_strlit("compact");
    reveal_strlit("db.log");
    let name = sealed_name(millis);
    assert(name.subrange(0, 4) =~= "data"@);
    assert(name[1] == 'a');
    if is_compact(name) {
        assert(name.subrange(0, 7)[0] == "compact"@[0]);
    }
}

/// The name made for a snapshot is that of a snapshot and of nothing
/// else.
pub proof fn lemma_compact_name(millis: nat)
    ensures
        is_compact(compact_name(millis)),
        !is_sealed(compact_name(millis)),
        compact_name(millis) != active_name(),
{
    reveal_strlit("compact-");
    reveal_strlit("data");
    reveal_strlit("compact");
    reveal_strlit("db.log");
    let name = compact_name(millis);
    assert(name.subrange(0, 7) =~= "compact"@);
    assert(name[0] == 'c');
    if is_sealed(name) {
        assert(name.subrange(0, 4)[0] == "data"@[0]);
    }
}

} // verus!
