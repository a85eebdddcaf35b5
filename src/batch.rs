//! Splitting a tick's environment snapshot into the batches sent to a client.
use vstd::prelude::*;

verus! {

/// The most bodies that one environment message carries.
pub const MAX_ENV_BATCH: usize = 50;

/// The batches of `s`, in order: full batches while more than one batch's
/// worth is left, then the rest. An empty snapshot is one empty batch.
pub open spec fn batches_of<T>(s: Seq<T>) -> Seq<Seq<T>>
    decreases s.len(),
{
    if s.len() <= MAX_ENV_BATCH {
        seq![s]
    } else {
        seq![s.take(MAX_ENV_BATCH as int)] + batches_of(s.skip(MAX_ENV_BATCH as int))
    }
}

/// The contents of each vector of `b`.
pub open spec fn contents<T>(b: Seq<Vec<T>>) -> Seq<Seq<T>> {
    b.map_values(|v: Vec<T>| v@)
}

/// Splits the snapshot `env` into the batches that the client receives.
pub fn env_batches<T>(env: Vec<T>) -> (r: Vec<Vec<T>>)
    ensures
        contents(r@) == batches_of(env@),
{
    let mut rest = env;
    let mut out: Vec<Vec<T>> = Vec::new();
    loop
        invariant
            contents(out@) + batches_of(rest@) == batches_of(env@),
        decreases rest.len(),
    {
        if rest.len() <= MAX_ENV_BATCH {
            let ghost before = out@;
            out.push(rest);
            assert(contents(out@) =~= contents(before) + batches_of(rest@));
            return out;
        }
        let ghost whole = rest@;
        let ghost before = out@;
        let tail = rest.split_off(MAX_ENV_BATCH);
        out.push(rest);
        rest = tail;
        assert(whole.take(MAX_ENV_BATCH as int) =~= whole.subrange(0, MAX_ENV_BATCH as int));
        assert(whole.skip(MAX_ENV_BATCH as int) =~= rest@);
        assert(contents(out@) =~= contents(before) + seq![whole.take(MAX_ENV_BATCH as int)]);
        assert(batches_of(whole) == seq![whole.take(MAX_ENV_BATCH as int)] + batches_of(rest@));
        assert(contents(out@) + batches_of(rest@) =~= contents(before) + batches_of(whole));
    }
}

/// The batches of a snapshot hold the snapshot in order, none holds more than
/// the limit, every batch but the last is full, there are as many as the
/// limit divides into the snapshot's length, rounded up, and an empty snapshot
/// gives exactly one empty batch.
pub proof fn lemma_batches_shape<T>(s: Seq<T>)
    ensures
        batches_of(s).flatten() == s,
        forall|k: int| 0 <= k < batches_of(s).len() ==> #[trigger] batches_of(s)[k].len() <= MAX_ENV_BATCH,
        forall|k: int| 0 <= k < batches_of(s).len() - 1 ==> #[trigger] batches_of(s)[k].len() == MAX_ENV_BATCH,
        s.len() == 0 ==> batches_of(s) == seq![Seq::<T>::empty()],
        s.len() > 0 ==> batches_of(s).len() == (s.len() + MAX_ENV_BATCH - 1) / MAX_ENV_BATCH as int,
        s.len() > 0 ==> forall|k: int| 0 <= k < batches_of(s).len() ==> #[trigger] batches_of(s)[k].len() > 0,
    decreases s.len(),
{
    let b = batches_of(s);
    if s.len() <= MAX_ENV_BATCH {
        assert(b.drop_first() =~= Seq::<Seq<T>>::empty());
        assert(b.flatten() =~= s + Seq::<Seq<T>>::empty().flatten());
        if s.len() == 0 {
            assert(s =~= Seq::<T>::empty());
        }
    } else {
        let head = s.take(MAX_ENV_BATCH as int);
        let tail = s.skip(MAX_ENV_BATCH as int);
        lemma_batches_shape(tail);
        assert(b.drop_first() =~= batches_of(tail));
        assert(b.flatten() == head + batches_of(tail).flatten());
        assert(s =~= head + tail);
        assert forall|k: int| 0 <= k < b.len() implies #[trigger] b[k].len() <= MAX_ENV_BATCH by {
            if k > 0 {
                assert(b[k] == batches_of(tail)[k - 1]);
            }
        }
        assert forall|k: int| 0 <= k < b.len() - 1 implies #[trigger] b[k].len() == MAX_ENV_BATCH by {
            if k > 0 {
                assert(b[k] == batches_of(tail)[k - 1]);
            }
        }
        assert forall|k: int| 0 <= k < b.len() implies #[trigger] b[k].len() > 0 by {
            if k > 0 {
                assert(b[k] == batches_of(tail)[k - 1]);
            }
        }
    }
}

} // verus!
