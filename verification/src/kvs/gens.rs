//! The generations of the log files: reading a generation off a file name,
//! putting generations in order, and choosing the next one.
use vstd::prelude::*;
use vstd::multiset::Multiset;

verus! {

broadcast use vstd::seq_lib::group_seq_properties, vstd::string::axiom_spec_iter;

/// Whether `s` ends with `.log`.
pub open spec fn ends_with_log(s: Seq<char>) -> bool {
    s.len() >= 4 && s.subrange(s.len() - 4, s.len() as int) == ".log"@
}

/// `s` with every trailing `.log` taken off.
pub open spec fn trim_log(s: Seq<char>) -> Seq<char>
    decreases s.len(),
{
    if s.len() >= 4 && ends_with_log(s) {
        trim_log(s.subrange(0, s.len() - 4))
    } else {
        s
    }
}

/// Whether every character of `s` is a decimal digit.
pub open spec fn all_digits(s: Seq<char>) -> bool {
    forall|i: int| 0 <= i < s.len() ==> '0' <= #[trigger] s[i] <= '9'
}

/// The number that the decimal digits `s` write.
pub open spec fn digits_value(s: Seq<char>) -> int
    decreases s.len(),
{
    if s.len() == 0 {
        0
    } else {
        digits_value(s.drop_last()) * 10 + (s.last() as int - '0' as int)
    }
}

/// The `u64` that `s` writes, as `str::parse::<u64>` reads it: an optional
/// `+`, then one or more decimal digits, of a value that fits.
pub open spec fn parse_u64(s: Seq<char>) -> Option<u64> {
    let d = if s.len() > 0 && s[0] == '+' {
        s.skip(1)
    } else {
        s
    };
    if d.len() > 0 && all_digits(d) && digits_value(d) <= u64::MAX {
        Some(digits_value(d) as u64)
    } else {
        None
    }
}

/// The generation of a log file named `name`: the name must have the
/// extension `log`; every trailing `.log` is taken off and the rest read as
/// a number.
pub open spec fn gen_of_name(name: Seq<char>) -> Option<u64> {
    if ends_with_log(name) && name.len() > 4 {
        parse_u64(trim_log(name))
    } else {
        None
    }
}

pub(crate) fn chars_of(s: &str) -> (v: Vec<char>)
    ensures
        v@ == s@,
{
    let mut v: Vec<char> = Vec::new();
    for c in it: s.chars()
        invariant
            it.seq() == s@,
            v@ == it.seq().take(it.index() as int),
    {
        v.push(c);
    }
    v
}

proof fn lemma_digits_value_monotonic(s: Seq<char>, k: int)
    requires
        all_digits(s),
        0 <= k <= s.len(),
    ensures
        0 <= digits_value(s.take(k)) <= digits_value(s),
    decreases s.len() - k,
{
    if k < s.len() {
        lemma_digits_value_monotonic(s, k + 1);
        assert(s.take(k + 1).drop_last() =~= s.take(k));
        assert(s.take(k + 1).last() == s[k]);
    } else {
        assert(s.take(k) =~= s);
    }
    lemma_digits_value_nonneg(s.take(k));
}

proof fn lemma_digits_value_nonneg(s: Seq<char>)
    requires
        all_digits(s),
    ensures
        digits_value(s) >= 0,
    decreases s.len(),
{
    if s.len() > 0 {
        lemma_digits_value_nonneg(s.drop_last());
    }
}

/// Reads decimal digits from position `start` to the end, as
/// `parse_u64` does after the sign.
fn parse_digits(v: &Vec<char>, start: usize) -> (r: Option<u64>)
    requires
        start <= v@.len(),
    ensures
        ({
            let d = v@.skip(start as int);
            r == if d.len() > 0 && all_digits(d) && digits_value(d) <= u64::MAX {
                Some(digits_value(d) as u64)
            } else {
                None::<u64>
            }
        }),
{
    let ghost d = v@.skip(start as int);
    if start == v.len() {
        return None;
    }
    let mut k: usize = start;
    let mut val: u64 = 0;
    while k < v.len()
        invariant
            start <= k <= v@.len(),
            d == v@.skip(start as int),
            all_digits(d.take(k - start)),
            val == digits_value(d.take(k - start)),
        decreases v@.len() - k,
    {
        let c = v[k];
        if !('0' <= c && c <= '9') {
            proof {
                assert(d[k - start] == c);
            }
            return None;
        }
        let digit = (c as u32 - '0' as u32) as u64;
        proof {
            assert(d.take(k - start + 1).drop_last() =~= d.take(k - start));
            assert(d.take(k - start + 1).last() == c);
        }
        if val > (u64::MAX - digit) / 10 {
            proof {
                assert(all_digits(d.take(k - start + 1)));
                assert(digits_value(d.take(k - start + 1)) == val * 10 + digit);
                assert(val * 10 + digit > u64::MAX) by (nonlinear_arith)
                    requires
                        val > (u64::MAX - digit) / 10,
                        digit <= 9,
                ;
                if all_digits(d) {
                    lemma_digits_value_monotonic(d, k - start + 1);
                }
            }
            return None;
        }
        proof {
            assert(val * 10 + digit <= u64::MAX) by (nonlinear_arith)
                requires
                    val <= (u64::MAX - digit) / 10,
                    digit <= 9,
            ;
        }
        val = val * 10 + digit;
        k = k + 1;
    }
    proof {
        assert(d.take(k - start) =~= d);
    }
    Some(val)
}

fn ends_log_at(v: &Vec<char>, e: usize) -> (b: bool)
    requires
        e <= v@.len(),
    ensures
        b == ends_with_log(v@.take(e as int)),
{
    if e < 4 {
        return false;
    }
    let b = v[e - 4] == '.' && v[e - 3] == 'l' && v[e - 2] == 'o' && v[e - 1] == 'g';
    proof {
        reveal_strlit(".log");
        let sub = v@.take(e as int).subrange(e - 4, e as int);
        assert(".log"@.len() == 4);
        assert(sub[0] == v@[e - 4] && sub[1] == v@[e - 3] && sub[2] == v@[e - 2] && sub[3]
            == v@[e - 1]);
        if b {
            assert(sub =~= ".log"@);
        } else {
            assert(!(sub[0] == ".log"@[0] && sub[1] == ".log"@[1] && sub[2] == ".log"@[2]
                && sub[3] == ".log"@[3]));
        }
    }
    b
}

/// The generation of a log file named `name`, if it is one: see
/// `gen_of_name`.
pub fn gen_of_file_name(name: &str) -> (r: Option<u64>)
    ensures
        r == gen_of_name(name@),
{
    let v = chars_of(name);
    let n = v.len();
    if !(n > 4 && ends_log_at(&v, n)) {
        proof {
            assert(v@.take(n as int) =~= v@);
        }
        return None;
    }
    let mut e = n;
    while e >= 4 && ends_log_at(&v, e)
        invariant
            e <= n,
            n == v@.len(),
            trim_log(v@) == trim_log(v@.take(e as int)),
        decreases e,
    {
        proof {
            assert(v@.take(e as int).subrange(0, e - 4) =~= v@.take(e - 4));
        }
        e = e - 4;
    }
    proof {
        assert(v@.take(n as int) =~= v@);
    }
    let mut t: Vec<char> = Vec::new();
    let mut k: usize = 0;
    while k < e
        invariant
            k <= e <= v@.len(),
            t@ =~= v@.take(k as int),
        decreases e - k,
    {
        t.push(v[k]);
        k = k + 1;
    }
    let start: usize = if t.len() > 0 && t[0] == '+' {
        1
    } else {
        0
    };
    proof {
        assert(t@ == trim_log(v@));
        assert(t@.skip(0) =~= t@);
    }
    parse_digits(&t, start)
}

/// Inserting `x` after every element not above it keeps a sequence in
/// order and adds `x` to its elements.
proof fn lemma_insert_sorted(before: Seq<u64>, pos: int, x: u64)
    requires
        ascending(before),
        0 <= pos <= before.len(),
        forall|i: int| 0 <= i < pos ==> before[i] <= x,
        pos < before.len() ==> before[pos] > x,
    ensures
        ascending(before.insert(pos, x)),
        before.insert(pos, x).to_multiset() == before.to_multiset().insert(x),
{
    let out = before.insert(pos, x);
    before.insert_ensures(pos, x);
    assert(out.remove(pos) =~= before);
    out.to_multiset_ensures();
    assert(out.to_multiset().count(x) > 0) by {
        assert(out[pos] == x);
        assert(out.contains(x));
    }
    assert(out.to_multiset() =~= before.to_multiset().insert(x));
    assert forall|i: int, j: int| 0 <= i < j < out.len() implies out[i] <= out[j] by {
        if j < pos {
        } else if i < pos && j == pos {
        } else if i < pos && j > pos {
            assert(out[j] == before[j - 1]);
            assert(before[pos] > x);
        } else if i == pos {
            assert(out[j] == before[j - 1]);
            assert(before[pos] > x);
        } else {
            assert(out[i] == before[i - 1]);
            assert(out[j] == before[j - 1]);
        }
    }
}

/// Whether `s` is in ascending order.
pub open spec fn ascending(s: Seq<u64>) -> bool {
    forall|i: int, j: int| 0 <= i < j < s.len() ==> s[i] <= s[j]
}

/// The generations in ascending order.
pub fn sort_gens(gens: Vec<u64>) -> (out: Vec<u64>)
    ensures
        ascending(out@),
        out@.to_multiset() == gens@.to_multiset(),
{
    let mut out: Vec<u64> = Vec::new();
    let mut k: usize = 0;
    while k < gens.len()
        invariant
            k <= gens@.len(),
            ascending(out@),
            out@.to_multiset() == gens@.take(k as int).to_multiset(),
        decreases gens@.len() - k,
    {
        let x = gens[k];
        let mut pos: usize = 0;
        while pos < out.len() && out[pos] <= x
            invariant
                pos <= out@.len(),
                ascending(out@),
                forall|i: int| 0 <= i < pos ==> out@[i] <= x,
            decreases out@.len() - pos,
        {
            pos = pos + 1;
        }
        let ghost before = out@;
        out.insert(pos, x);
        proof {
            lemma_insert_sorted(before, pos as int, x);
            assert(gens@.take(k + 1) =~= gens@.take(k as int).push(x));
            gens@.take(k as int).to_multiset_ensures();
        }
        k = k + 1;
    }
    assert(gens@.take(gens@.len() as int) =~= gens@);
    out
}

/// The generation that follows the last of the ascending `gens`; 1 when
/// there is none. `None` when the last is `u64::MAX`.
pub fn next_generation(gens: &Vec<u64>) -> (r: Option<u64>)
    ensures
        gens@.len() == 0 ==> r == Some(1u64),
        gens@.len() > 0 ==> r == if gens@.last() < u64::MAX {
            Some((gens@.last() + 1) as u64)
        } else {
            None::<u64>
        },
{
    if gens.len() == 0 {
        Some(1)
    } else {
        let last = gens[gens.len() - 1];
        if last < u64::MAX {
            Some(last + 1)
        } else {
            None
        }
    }
}

/// The generations older than `compaction_gen`, whose files compaction
/// leaves stale.
pub fn stale_gens(gens: &Vec<u64>, compaction_gen: u64) -> (out: Vec<u64>)
    ensures
        out@ == gens@.filter(|g: u64| g < compaction_gen),
{
    let mut out: Vec<u64> = Vec::new();
    let mut k: usize = 0;
    while k < gens.len()
        invariant
            k <= gens@.len(),
            out@ == gens@.take(k as int).filter(|g: u64| g < compaction_gen),
        decreases gens@.len() - k,
    {
        let g = gens[k];
        proof {
            reveal(Seq::filter);
            assert(gens@.take(k + 1).drop_last() =~= gens@.take(k as int));
            assert(gens@.take(k + 1).last() == g);
        }
        if g < compaction_gen {
            out.push(g);
        }
        k = k + 1;
    }
    assert(gens@.take(gens@.len() as int) =~= gens@);
    out
}

} // verus!
