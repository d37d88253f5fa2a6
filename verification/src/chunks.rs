//! Splitting a byte payload into bounded chunks, and the
//! concatenation it must restore.  Voice samples are cut into
//! chunks before sending, and fragmented image frames are put back
//! together by concatenating their parts.

use vstd::prelude::*;

verus! {

/// The concatenation of a sequence of byte strings, in order.
pub open spec fn spec_concat(parts: Seq<Seq<u8>>) -> Seq<u8>
    decreases parts.len(),
{
    if parts.len() == 0 {
        Seq::empty()
    } else {
        parts[0] + spec_concat(parts.skip(1))
    }
}

/// Appending one more part concatenates it at the end.
pub proof fn lemma_concat_push(parts: Seq<Seq<u8>>, p: Seq<u8>)
    ensures
        spec_concat(parts.push(p)) == spec_concat(parts) + p,
    decreases parts.len(),
{
    if parts.len() == 0 {
        let empty = Seq::<Seq<u8>>::empty();
        assert(spec_concat(empty) == Seq::<u8>::empty());
        assert(parts.push(p).skip(1) =~= empty);
        assert(spec_concat(parts.push(p)) == p + Seq::<u8>::empty());
        assert(p + Seq::<u8>::empty() =~= p);
        assert(spec_concat(parts) + p =~= p);
    } else {
        assert(parts.push(p).skip(1) =~= parts.skip(1).push(p));
        lemma_concat_push(parts.skip(1), p);
        assert(parts.push(p)[0] == parts[0]);
        assert(parts[0] + (spec_concat(parts.skip(1)) + p) =~= (parts[0] + spec_concat(
            parts.skip(1),
        )) + p);
    }
}

/// Splits a payload into chunks of at most `max` bytes.  Every chunk
/// but the last is full, no chunk is empty, and concatenating the
/// chunks in order restores the payload.
pub fn split_chunks(data: &Vec<u8>, max: usize) -> (r: Vec<Vec<u8>>)
    requires
        max >= 1,
    ensures
        spec_concat(r.deep_view()) == data@,
        forall|i: int| 0 <= i < r@.len() ==> 0 < (#[trigger] r@[i])@.len() <= max,
        forall|i: int| 0 <= i < r@.len() - 1 ==> (#[trigger] r@[i])@.len() == max,
{
    let mut r: Vec<Vec<u8>> = Vec::new();
    let mut cur: Vec<u8> = Vec::new();
    let mut i: usize = 0;
    proof {
        assert(r.deep_view() =~= Seq::<Seq<u8>>::empty());
        assert(spec_concat(r.deep_view()) + cur@ =~= data@.take(0));
    }
    while i < data.len()
        invariant
            i <= data@.len(),
            max >= 1,
            cur@.len() < max,
            spec_concat(r.deep_view()) + cur@ == data@.take(i as int),
            forall|j: int| 0 <= j < r@.len() ==> (#[trigger] r@[j])@.len() == max,
        decreases data@.len() - i,
    {
        let ghost done = spec_concat(r.deep_view());
        let ghost prev = cur@;
        let ghost b = data@[i as int];
        cur.push(data[i]);
        i += 1;
        proof {
            assert(done + cur@ =~= (done + prev).push(b));
            assert(data@.take(i as int) =~= data@.take(i - 1).push(b));
        }
        if cur.len() == max {
            let ghost old_parts = r.deep_view();
            let ghost chunk = cur@;
            r.push(cur);
            cur = Vec::new();
            proof {
                assert(r.deep_view() =~~= old_parts.push(chunk));
                lemma_concat_push(old_parts, chunk);
                assert(spec_concat(r.deep_view()) + cur@ =~= data@.take(i as int));
            }
        }
    }
    proof {
        assert(data@.take(data@.len() as int) =~= data@);
    }
    if cur.len() > 0 {
        let ghost old_parts = r.deep_view();
        let ghost chunk = cur@;
        r.push(cur);
        proof {
            assert(r.deep_view() =~~= old_parts.push(chunk));
            lemma_concat_push(old_parts, chunk);
            assert(spec_concat(r.deep_view()) =~= data@);
        }
    } else {
        proof {
            assert(cur@ =~= Seq::<u8>::empty());
            assert(spec_concat(r.deep_view()) + cur@ =~= spec_concat(r.deep_view()));
        }
    }
    r
}

} // verus!
