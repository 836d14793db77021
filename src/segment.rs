//! Segment file names: generation `n` lives in the file `data_<n>.data`,
//! with `n` in decimal.
use vstd::prelude::*;
use vstd::string::StringSliceAdditionalSpecFns;
use vstd::utf8::encode_utf8;

verus! {

/// `data_`
pub open spec fn name_prefix() -> Seq<u8> {
    seq![100u8, 97u8, 116u8, 97u8, 95u8]
}

/// `.data`
pub open spec fn name_suffix() -> Seq<u8> {
    seq![46u8, 100u8, 97u8, 116u8, 97u8]
}

pub open spec fn is_digit(b: u8) -> bool {
    48 <= b <= 57
}

/// The number that a string of decimal digits denotes.
pub open spec fn digits_value(d: Seq<u8>) -> int
    decreases d.len(),
{
    if d.len() == 0 {
        0
    } else {
        digits_value(d.drop_last()) * 10 + (d.last() - 48)
    }
}

/// The bytes between the prefix and the suffix of a name.
pub open spec fn middle(b: Seq<u8>) -> Seq<u8> {
    b.subrange(5, b.len() - 5)
}

/// `b` is the name of a segment file: prefix, one or more decimal digits
/// whose value fits in a `u64`, suffix.
pub open spec fn is_segment_name(b: Seq<u8>) -> bool {
    &&& b.len() > 10
    &&& b.take(5) == name_prefix()
    &&& b.skip(b.len() - 5) == name_suffix()
    &&& forall|i: int| 0 <= i < middle(b).len() ==> is_digit(#[trigger] middle(b)[i])
    &&& digits_value(middle(b)) <= u64::MAX
}

proof fn lemma_digits_value_grows(d: Seq<u8>, n: int)
    requires
        0 <= n <= d.len(),
        forall|i: int| 0 <= i < d.len() ==> is_digit(#[trigger] d[i]),
    ensures
        digits_value(d.take(n)) <= digits_value(d),
        digits_value(d) >= 0,
    decreases d.len(),
{
    if d.len() > 0 {
        let t = d.drop_last();
        assert forall|i: int| 0 <= i < t.len() implies is_digit(#[trigger] t[i]) by {
            assert(t[i] == d[i]);
        }
        if n < d.len() {
            lemma_digits_value_grows(t, n);
            assert(t.take(n) =~= d.take(n));
        } else {
            lemma_digits_value_grows(t, 0);
            assert(d.take(n) =~= d);
        }
    }
}

/// The generation that a directory entry's name denotes, if it names a
/// segment file.
pub fn generation_of(name: &str) -> (r: Option<u64>)
    ensures
        r is Some <==> is_segment_name(name.spec_bytes()),
        r matches Some(n) ==> n == digits_value(middle(name.spec_bytes())),
{
    let b = name.as_bytes();
    let len = b.len();
    let ghost bs = name.spec_bytes();
    if len <= 10 {
        return None;
    }
    let prefix: [u8; 5] = [100u8, 97u8, 116u8, 97u8, 95u8];
    let suffix: [u8; 5] = [46u8, 100u8, 97u8, 116u8, 97u8];
    let mut i: usize = 0;
    while i < 5
        invariant
            i <= 5,
            len == bs.len(),
            len > 10,
            b@ == bs,
            bs == name.spec_bytes(),
            prefix@ == name_prefix(),
            suffix@ == name_suffix(),
            forall|j: int| 0 <= j < i ==> bs[j] == name_prefix()[j] && bs[len - 5 + j] == name_suffix()[j],
        decreases 5 - i,
    {
        if b[i] != prefix[i] || b[len - 5 + i] != suffix[i] {
            proof {
                assert(!is_segment_name(bs)) by {
                    if is_segment_name(bs) {
                        assert(bs.take(5)[i as int] == bs[i as int]);
                        assert(bs.skip(len - 5)[i as int] == bs[len - 5 + i]);
                        assert(prefix@[i as int] == name_prefix()[i as int]);
                        assert(suffix@[i as int] == name_suffix()[i as int]);
                    }
                }
            }
            return None;
        }
        i = i + 1;
    }
    assert(bs.take(5) =~= name_prefix());
    assert(bs.skip(len - 5) =~= name_suffix());
    let ghost mid = middle(bs);
    let mut v: u64 = 0;
    let mut j: usize = 5;
    while j < len - 5
        invariant
            5 <= j <= len - 5,
            len == bs.len(),
            len > 10,
            b@ == bs,
            bs == name.spec_bytes(),
            mid == middle(bs),
            forall|t: int| 0 <= t < j - 5 ==> is_digit(#[trigger] mid[t]),
            v == digits_value(mid.take(j - 5)),
        decreases len - 5 - j,
    {
        let c = b[j];
        assert(mid[j - 5] == c);
        if c < 48 || c > 57 {
            proof {
                assert(!is_segment_name(bs)) by {
                    if is_segment_name(bs) {
                        assert(is_digit(middle(bs)[j - 5]));
                    }
                }
            }
            return None;
        }
        let d = (c - 48) as u64;
        assert(mid.take(j - 4).drop_last() =~= mid.take(j - 5));
        if v > (u64::MAX - d) / 10 {
            proof {
                assert(v * 10 + d > u64::MAX) by (nonlinear_arith)
                    requires
                        v > (u64::MAX - d) / 10,
                        d <= 9,
                ;
                assert(mid.take(j - 4).last() == c);
                assert(digits_value(mid.take(j - 4)) == v * 10 + d);
                assert(!is_segment_name(bs)) by {
                    if is_segment_name(bs) {
                        lemma_digits_value_grows(mid, j - 4);
                    }
                }
            }
            return None;
        }
        assert(v * 10 + d <= u64::MAX) by (nonlinear_arith)
            requires
                v <= (u64::MAX - d) / 10,
                d <= 9,
        ;
        v = v * 10 + d;
        j = j + 1;
    }
    assert(mid.take(mid.len() as int) =~= mid);
    Some(v)
}


/// The generation that `b` names, where it names a segment file.
pub open spec fn named_generation(b: Seq<u8>) -> Option<u64> {
    if is_segment_name(b) {
        Some(digits_value(middle(b)) as u64)
    } else {
        None
    }
}

/// Inserts `g` into the strictly increasing `v`, unless it is there.
fn insert_sorted(v: &mut Vec<u64>, g: u64)
    requires
        forall|a: int, b: int| 0 <= a < b < old(v)@.len() ==> old(v)@[a] < old(v)@[b],
    ensures
        forall|a: int, b: int| 0 <= a < b < final(v)@.len() ==> final(v)@[a] < final(v)@[b],
        forall|x: u64| final(v)@.contains(x) <==> (old(v)@.contains(x) || x == g),
{
    let mut i: usize = 0;
    while i < v.len() && v[i] < g
        invariant
            v@ == old(v)@,
            i <= v@.len(),
            forall|a: int| 0 <= a < i ==> v@[a] < g,
        decreases v@.len() - i,
    {
        i = i + 1;
    }
    if i < v.len() && v[i] == g {
        assert(v@.contains(g));
        return;
    }
    v.insert(i, g);
    proof {
        let o = old(v)@;
        assert forall|x: u64| #[trigger] v@.contains(x) implies (o.contains(x) || x == g) by {
            let k = choose|k: int| 0 <= k < v@.len() && v@[k] == x;
            if k < i {
                assert(o[k] == x);
            } else if k > i {
                assert(o[k - 1] == x);
            }
        }
        assert forall|x: u64| #[trigger] o.contains(x) implies v@.contains(x) by {
            let k = choose|k: int| 0 <= k < o.len() && o[k] == x;
            if k < i {
                assert(v@[k] == x);
            } else {
                assert(v@[k + 1] == x);
            }
        }
        assert(v@[i as int] == g);
        assert(v@.contains(g));
        assert forall|a: int, b: int| 0 <= a < b < v@.len() implies v@[a] < v@[b] by {
            if b < i {
                assert(v@[a] == o[a] && v@[b] == o[b]);
            } else if b == i {
                assert(v@[a] == o[a]);
            } else if a < i {
                assert(v@[a] == o[a] && v@[b] == o[b - 1]);
                assert(o[a] < g);
                assert(o[i as int] > g);
                if b - 1 > i {
                    assert(o[i as int] < o[b - 1]);
                }
            } else if a == i {
                assert(v@[b] == o[b - 1]);
                assert(o[i as int] > g);
                if b - 1 > i {
                    assert(o[i as int] < o[b - 1]);
                }
            } else {
                assert(v@[a] == o[a - 1] && v@[b] == o[b - 1]);
            }
        }
    }
}

/// The generations that the entries `names` of a directory name, ascending,
/// each once; names of other files are passed over.
pub fn segment_generations(names: &Vec<String>) -> (r: Vec<u64>)
    ensures
        forall|a: int, b: int| 0 <= a < b < r@.len() ==> r@[a] < r@[b],
        forall|x: u64| r@.contains(x) <==> exists|i: int| 0 <= i < names@.len()
            && named_generation(encode_utf8((#[trigger] names@[i])@)) == Some(x),
{
    let mut r: Vec<u64> = Vec::new();
    let mut i: usize = 0;
    while i < names.len()
        invariant
            i <= names@.len(),
            forall|a: int, b: int| 0 <= a < b < r@.len() ==> r@[a] < r@[b],
            forall|x: u64| r@.contains(x) <==> exists|j: int| 0 <= j < i
                && named_generation(encode_utf8((#[trigger] names@[j])@)) == Some(x),
        decreases names@.len() - i,
    {
        let g = generation_of(names[i].as_str());
        let ghost prev = r@;
        match g {
            Some(n) => {
                insert_sorted(&mut r, n);
            },
            None => {},
        }
        proof {
            assert forall|x: u64| r@.contains(x) <==> exists|j: int| 0 <= j < i + 1
                && named_generation(encode_utf8((#[trigger] names@[j])@)) == Some(x) by {
                if r@.contains(x) && !prev.contains(x) {
                    assert(named_generation(encode_utf8(names@[i as int]@)) == Some(x));
                }
                if exists|j: int| 0 <= j < i + 1 && named_generation(encode_utf8((#[trigger] names@[j])@)) == Some(x) {
                    let j = choose|j: int| 0 <= j < i + 1 && named_generation(encode_utf8((#[trigger] names@[j])@)) == Some(x);
                    if j < i {
                        assert(prev.contains(x));
                    }
                }
            }
        }
        i = i + 1;
    }
    r
}

} // verus!
