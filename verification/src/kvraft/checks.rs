//! Checks on the value that concurrent appends leave behind.
//!
//! Client `c` appends `x c j y` for `j = 0, 1, ...` to one key. In the final
//! value every element that a client appended occurs exactly once, and the
//! elements of one client occur in the order it appended them.
//!
//! A test harness that finds a value breaking this stops the test with the
//! fault. These checks report the fault instead, as an `Err` naming the
//! client, the element and what is wrong with it, and the harness panics on
//! it. They take every value: a `requires` that left out the values a
//! harness stops on would leave nothing to check.
use vstd::prelude::*;
use vstd::string::StringExecFns;
use crate::kvs::gens::chars_of;

verus! {

/// The value after appending `val` to `prev`.
pub fn next_value(prev: String, val: &str) -> (v: String)
    ensures
        v@ == prev@ + val@,
{
    prev.concat(val)
}

/// The digit character of `d`.
pub open spec fn digit(d: int) -> char {
    (d + 48) as char
}

/// The decimal digits of `n`.
pub open spec fn decimal(n: nat) -> Seq<char>
    decreases n,
{
    if n < 10 {
        seq![digit(n as int)]
    } else {
        decimal(n / 10).push(digit((n % 10) as int))
    }
}

/// The element that client `clnt` appends as its `j`-th: `x clnt j y`.
pub open spec fn element(clnt: nat, j: nat) -> Seq<char> {
    seq!['x', ' '] + decimal(clnt) + seq![' '] + decimal(j) + seq![' ', 'y']
}

/// `w` occurs in `v` at position `i`.
pub open spec fn occurs_at(v: Seq<char>, w: Seq<char>, i: int) -> bool {
    0 <= i && i + w.len() <= v.len() && v.subrange(i, i + w.len()) == w
}

/// `i` is the first position at which `w` occurs in `v`.
pub open spec fn is_first(v: Seq<char>, w: Seq<char>, i: int) -> bool {
    occurs_at(v, w, i) && forall|k: int| 0 <= k < i ==> !#[trigger] occurs_at(v, w, k)
}

/// The first position at which `w` occurs in `v`.
pub open spec fn first_occurrence(v: Seq<char>, w: Seq<char>) -> int {
    choose|i: int| is_first(v, w, i)
}

/// Why a client's appends are not as they should be, and at which element.
#[derive(Clone, Copy, Debug, PartialEq, Eq, Structural)]
pub enum AppendCheckError {
    /// The element is not in the value.
    Missing { client: usize, index: usize },
    /// The element occurs more than once.
    Duplicate { client: usize, index: usize },
    /// The element comes before the one appended before it.
    WrongOrder { client: usize, index: usize },
}

/// What is wrong with element `j` of client `clnt` in `v`, given that the
/// elements before it are in place.
pub open spec fn fault(clnt: usize, v: Seq<char>, j: usize) -> Option<AppendCheckError> {
    let w = element(clnt as nat, j as nat);
    if !exists|i: int| occurs_at(v, w, i) {
        Some(AppendCheckError::Missing { client: clnt, index: j })
    } else if exists|i1: int, i2: int| occurs_at(v, w, i1) && occurs_at(v, w, i2) && i1 != i2 {
        Some(AppendCheckError::Duplicate { client: clnt, index: j })
    } else if j > 0 && first_occurrence(v, w) <= first_occurrence(
        v,
        element(clnt as nat, (j - 1) as nat),
    ) {
        Some(AppendCheckError::WrongOrder { client: clnt, index: j })
    } else {
        None
    }
}

/// The verdict on the first `count` elements of client `clnt`: the fault
/// of the first one that is wrong.
pub open spec fn client_verdict(clnt: usize, v: Seq<char>, count: nat) -> Result<(), AppendCheckError>
    decreases count,
{
    if count == 0 {
        Ok(())
    } else {
        match client_verdict(clnt, v, (count - 1) as nat) {
            Err(e) => Err(e),
            Ok(()) => match fault(clnt, v, (count - 1) as usize) {
                Some(e) => Err(e),
                None => Ok(()),
            },
        }
    }
}

/// The verdict on all clients: that of the first client whose elements are
/// wrong.
pub open spec fn concurrent_verdict(v: Seq<char>, counts: Seq<usize>) -> Result<(), AppendCheckError>
    decreases counts.len(),
{
    if counts.len() == 0 {
        Ok(())
    } else {
        match concurrent_verdict(v, counts.drop_last()) {
            Err(e) => Err(e),
            Ok(()) => client_verdict((counts.len() - 1) as usize, v, counts.last() as nat),
        }
    }
}

fn matches_at(v: &Vec<char>, w: &Vec<char>, i: usize) -> (m: bool)
    requires
        i + w.len() <= v.len(),
    ensures
        m == occurs_at(v@, w@, i as int),
{
    let mut k: usize = 0;
    while k < w.len()
        invariant
            i + w.len() <= v.len(),
            k <= w.len(),
            forall|t: int| 0 <= t < k ==> v@[i + t] == w@[t],
        decreases w.len() - k,
    {
        if v[i + k] != w[k] {
            assert(v@.subrange(i as int, i + w@.len())[k as int] != w@[k as int]);
            return false;
        }
        k = k + 1;
    }
    assert(v@.subrange(i as int, i + w@.len()) =~= w@);
    true
}

/// The first position at which `w` occurs in `v`.
fn find(v: &Vec<char>, w: &Vec<char>) -> (r: Option<usize>)
    ensures
        match r {
            Some(i) => is_first(v@, w@, i as int),
            None => forall|i: int| !occurs_at(v@, w@, i),
        },
{
    if w.len() > v.len() {
        return None;
    }
    let last = v.len() - w.len();
    let mut i: usize = 0;
    while i < last
        invariant
            last == v.len() - w.len(),
            i <= last,
            forall|k: int| 0 <= k < i ==> !#[trigger] occurs_at(v@, w@, k),
        decreases last - i,
    {
        if matches_at(v, w, i) {
            return Some(i);
        }
        i = i + 1;
    }
    if matches_at(v, w, last) {
        Some(last)
    } else {
        None
    }
}

/// The last position at which `w` occurs in `v`.
fn rfind(v: &Vec<char>, w: &Vec<char>) -> (r: Option<usize>)
    ensures
        match r {
            Some(i) => occurs_at(v@, w@, i as int) && forall|k: int| k > i ==> !#[trigger] occurs_at(
                v@,
                w@,
                k,
            ),
            None => forall|i: int| !occurs_at(v@, w@, i),
        },
{
    if w.len() > v.len() {
        return None;
    }
    let mut i: usize = v.len() - w.len();
    while i > 0
        invariant
            i <= v.len() - w.len(),
            forall|k: int| k > i ==> !#[trigger] occurs_at(v@, w@, k),
        decreases i,
    {
        if matches_at(v, w, i) {
            return Some(i);
        }
        i = i - 1;
    }
    if matches_at(v, w, 0) {
        Some(0)
    } else {
        None
    }
}

/// A verdict that found a fault keeps it however many more elements are
/// counted.
proof fn lemma_client_verdict_sticks(clnt: usize, v: Seq<char>, a: nat, b: nat)
    requires
        a <= b,
        client_verdict(clnt, v, a) is Err,
    ensures
        client_verdict(clnt, v, b) == client_verdict(clnt, v, a),
    decreases b,
{
    if a < b {
        lemma_client_verdict_sticks(clnt, v, a, (b - 1) as nat);
    }
}

/// A verdict on the first clients that found a fault keeps it however many
/// more clients are counted.
proof fn lemma_concurrent_verdict_sticks(v: Seq<char>, counts: Seq<usize>, a: int, b: int)
    requires
        0 <= a <= b <= counts.len(),
        concurrent_verdict(v, counts.take(a)) is Err,
    ensures
        concurrent_verdict(v, counts.take(b)) == concurrent_verdict(v, counts.take(a)),
    decreases b,
{
    if a < b {
        lemma_concurrent_verdict_sticks(v, counts, a, b - 1);
        assert(counts.take(b).drop_last() =~= counts.take(b - 1));
    }
}

/// The decimal digits of `n`.
fn decimal_chars(n: usize) -> (d: Vec<char>)
    ensures
        d@ == decimal(n as nat),
    decreases n,
{
    if n < 10 {
        let c = ((n as u8) + 48u8) as char;
        assert(c == digit(n as int));
        vec![c]
    } else {
        let mut d = decimal_chars(n / 10);
        let c = (((n % 10) as u8) + 48u8) as char;
        assert(c == digit((n % 10) as int));
        d.push(c);
        d
    }
}

/// The element `x clnt j y`.
fn element_chars(clnt: usize, j: usize) -> (w: Vec<char>)
    ensures
        w@ == element(clnt as nat, j as nat),
{
    let mut w: Vec<char> = vec!['x', ' '];
    let mut c = decimal_chars(clnt);
    w.append(&mut c);
    w.push(' ');
    let mut d = decimal_chars(j);
    w.append(&mut d);
    w.push(' ');
    w.push('y');
    assert(w@ =~= element(clnt as nat, j as nat));
    w
}

/// Checks that the first `count` elements of client `clnt` each occur
/// exactly once in `v`, in order; the first that does not gives the error.
pub fn check_clnt_appends(clnt: usize, v: String, count: usize) -> (r: Result<(), AppendCheckError>)
    ensures
        r == client_verdict(clnt, v@, count as nat),
{
    let chars = chars_of(v.as_str());
    check_clnt_chars(clnt, &chars, count)
}

fn check_clnt_chars(clnt: usize, v: &Vec<char>, count: usize) -> (r: Result<(), AppendCheckError>)
    ensures
        r == client_verdict(clnt, v@, count as nat),
{
    let mut lastoff: Option<usize> = None;
    let mut j: usize = 0;
    while j < count
        invariant
            j <= count,
            client_verdict(clnt, v@, j as nat) is Ok,
            match lastoff {
                None => j == 0,
                Some(o) => j > 0 && is_first(v@, element(clnt as nat, (j - 1) as nat), o as int),
            },
        decreases count - j,
    {
        let wanted = element_chars(clnt, j);
        let ghost w = wanted@;
        match find(v, &wanted) {
            Some(off) => {
                let off1 = rfind(v, &wanted);
                match off1 {
                    Some(o1) => {
                        if o1 != off {
                            assert(occurs_at(v@, w, off as int) && occurs_at(v@, w, o1 as int));
                            assert(fault(clnt, v@, j) == Some(
                                AppendCheckError::Duplicate { client: clnt, index: j },
                            ));
                            proof {
                                lemma_client_verdict_sticks(clnt, v@, (j + 1) as nat, count as nat);
                            }
                            return Err(AppendCheckError::Duplicate { client: clnt, index: j });
                        }
                    },
                    None => {
                        assert(false);
                    },
                }
                assert(!exists|i1: int, i2: int|
                    occurs_at(v@, w, i1) && occurs_at(v@, w, i2) && i1 != i2) by {
                    if exists|i1: int, i2: int| occurs_at(v@, w, i1) && occurs_at(v@, w, i2) && i1 != i2 {
                        let (i1, i2) = choose|i1: int, i2: int|
                            occurs_at(v@, w, i1) && occurs_at(v@, w, i2) && i1 != i2;
                        assert(i1 >= off && i2 >= off);
                        assert(i1 <= off && i2 <= off);
                    }
                }
                proof {
                    let f = first_occurrence(v@, w);
                    assert(is_first(v@, w, f));
                    assert(f == off) by {
                        if f < off {
                        } else if f > off {
                        }
                    }
                }
                match lastoff {
                    Some(lo) => {
                        proof {
                            let pw = element(clnt as nat, (j - 1) as nat);
                            let f = first_occurrence(v@, pw);
                            assert(is_first(v@, pw, f));
                            assert(f == lo) by {
                                if f < lo {
                                } else if f > lo {
                                }
                            }
                        }
                        if off <= lo {
                            proof {
                                lemma_client_verdict_sticks(clnt, v@, (j + 1) as nat, count as nat);
                            }
                            return Err(AppendCheckError::WrongOrder { client: clnt, index: j });
                        }
                    },
                    None => {},
                }
                lastoff = Some(off);
            },
            None => {
                proof {
                    lemma_client_verdict_sticks(clnt, v@, (j + 1) as nat, count as nat);
                }
                return Err(AppendCheckError::Missing { client: clnt, index: j });
            },
        }
        j = j + 1;
    }
    Ok(())
}

/// Checks every client's elements in `v`, client `i` having appended
/// `counts[i]` of them; the first client whose elements are wrong gives the
/// error.
pub fn check_concurrent_appends(v: String, counts: &[usize]) -> (r: Result<(), AppendCheckError>)
    ensures
        r == concurrent_verdict(v@, counts@),
{
    let chars = chars_of(v.as_str());
    let mut i: usize = 0;
    while i < counts.len()
        invariant
            i <= counts.len(),
            chars@ == v@,
            concurrent_verdict(v@, counts@.take(i as int)) is Ok,
        decreases counts.len() - i,
    {
        let r = check_clnt_chars(i, &chars, counts[i]);
        proof {
            assert(counts@.take(i + 1).drop_last() =~= counts@.take(i as int));
        }
        if r.is_err() {
            proof {
                lemma_concurrent_verdict_sticks(v@, counts@, i + 1, counts@.len() as int);
                assert(counts@.take(counts@.len() as int) =~= counts@);
            }
            return r;
        }
        i = i + 1;
    }
    assert(counts@.take(counts.len() as int) =~= counts@);
    Ok(())
}

} // verus!
