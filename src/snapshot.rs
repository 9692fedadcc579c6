//! The saved form of a shard's contents: the four bytes `SVLT`, then for each
//! record its key and its share, each preceded by its length in four bytes,
//! most significant first.
use crate::shard::{entries_map, keys_unique, valid_identity, ShardError, VaultShard};
use vstd::arithmetic::div_mod::lemma_fundamental_div_mod;
use vstd::prelude::*;

verus! {

pub open spec fn magic() -> Seq<u8> {
    seq![83u8, 86u8, 76u8, 84u8]
}

/// The four bytes of `n`, most significant first.
pub open spec fn be_bytes(n: nat) -> Seq<u8> {
    let q1 = n / 256;
    let q2 = q1 / 256;
    let q3 = q2 / 256;
    seq![(q3 % 256) as u8, (q2 % 256) as u8, (q1 % 256) as u8, (n % 256) as u8]
}

/// The number that the first four bytes of `s` hold, most significant first.
pub open spec fn be_value(s: Seq<u8>) -> nat {
    (s[0] as nat) * 16777216 + (s[1] as nat) * 65536 + (s[2] as nat) * 256 + (s[3] as nat)
}

pub open spec fn frame(b: Seq<u8>) -> Seq<u8> {
    be_bytes(b.len()) + b
}

pub open spec fn encode_records(e: Seq<(Seq<u8>, Seq<u8>)>) -> Seq<u8>
    decreases e.len(),
{
    if e.len() == 0 {
        Seq::empty()
    } else {
        frame(e[0].0) + frame(e[0].1) + encode_records(e.drop_first())
    }
}

/// The saved form of the records `e`.
pub open spec fn encode(e: Seq<(Seq<u8>, Seq<u8>)>) -> Seq<u8> {
    magic() + encode_records(e)
}

/// The records that `s` holds one after another, if it is made of whole records.
pub open spec fn parse_records(s: Seq<u8>) -> Option<Seq<(Seq<u8>, Seq<u8>)>>
    decreases s.len(),
{
    if s.len() == 0 {
        Some(Seq::empty())
    } else if s.len() < 4 {
        None
    } else {
        let kl = be_value(s) as int;
        if s.len() < 8 + kl {
            None
        } else {
            let key = s.subrange(4, 4 + kl);
            let vl = be_value(s.subrange(4 + kl, s.len() as int)) as int;
            if s.len() < 8 + kl + vl {
                None
            } else {
                let value = s.subrange(8 + kl, 8 + kl + vl);
                match parse_records(s.subrange(8 + kl + vl, s.len() as int)) {
                    Some(r) => Some(seq![(key, value)] + r),
                    None => None,
                }
            }
        }
    }
}

/// The records that the saved form `s` holds, if it is one.
pub open spec fn decode(s: Seq<u8>) -> Option<Seq<(Seq<u8>, Seq<u8>)>> {
    if s.len() < 4 || s.subrange(0, 4) != magic() {
        None
    } else {
        parse_records(s.subrange(4, s.len() as int))
    }
}

pub open spec fn fits_u32(e: Seq<(Seq<u8>, Seq<u8>)>) -> bool {
    forall|i: int| 0 <= i < e.len() ==> #[trigger] e[i].0.len() <= u32::MAX && e[i].1.len() <= u32::MAX
}

proof fn lemma_be(n: nat)
    requires
        n <= u32::MAX,
    ensures
        be_bytes(n).len() == 4,
        be_value(be_bytes(n)) == n,
{
    let q1 = n / 256;
    let q2 = q1 / 256;
    let q3 = q2 / 256;
    lemma_fundamental_div_mod(n as int, 256);
    lemma_fundamental_div_mod(q1 as int, 256);
    lemma_fundamental_div_mod(q2 as int, 256);
    lemma_fundamental_div_mod(q3 as int, 256);
}

proof fn lemma_parse_frame(b: Seq<u8>, rest: Seq<u8>)
    requires
        b.len() <= u32::MAX,
    ensures
        (frame(b) + rest).subrange(4, 4 + b.len() as int) == b,
        be_value(frame(b) + rest) == b.len(),
        (frame(b) + rest).subrange(4 + b.len() as int, (frame(b) + rest).len() as int) == rest,
{
    lemma_be(b.len());
    let s = frame(b) + rest;
    assert(s.subrange(4, 4 + b.len() as int) =~= b);
    assert(s.subrange(4 + b.len() as int, s.len() as int) =~= rest);
}

/// Reading back the saved form of well-sized records gives the same records.
pub proof fn lemma_decode_encode(e: Seq<(Seq<u8>, Seq<u8>)>)
    requires
        fits_u32(e),
    ensures
        decode(encode(e)) == Some(e),
{
    assert(encode(e).subrange(0, 4) =~= magic());
    assert(encode(e).subrange(4, encode(e).len() as int) =~= encode_records(e));
    lemma_parse_encoded(e);
}

proof fn lemma_parse_encoded(e: Seq<(Seq<u8>, Seq<u8>)>)
    requires
        fits_u32(e),
    ensures
        parse_records(encode_records(e)) == Some(e),
    decreases e.len(),
{
    if e.len() > 0 {
        let k = e[0].0;
        let v = e[0].1;
        let tail = e.drop_first();
        assert(fits_u32(tail)) by {
            assert forall|i: int| 0 <= i < tail.len() implies #[trigger] tail[i].0.len() <= u32::MAX
                && tail[i].1.len() <= u32::MAX by {
                assert(tail[i] == e[i + 1]);
            }
        }
        assert(e[0].0.len() <= u32::MAX && e[0].1.len() <= u32::MAX);
        lemma_parse_encoded(tail);
        let rest = encode_records(tail);
        let s = encode_records(e);
        let after_key = frame(v) + rest;
        assert(s =~= frame(k) + after_key);
        lemma_parse_frame(k, after_key);
        lemma_parse_frame(v, rest);
        let kl = k.len() as int;
        let vl = v.len() as int;
        lemma_be(k.len());
        lemma_be(v.len());
        assert(s.subrange(4 + kl, s.len() as int) =~= after_key);
        assert(s.subrange(8 + kl, 8 + kl + vl) =~= v);
        assert(s.subrange(8 + kl + vl, s.len() as int) =~= rest);
        assert(seq![(k, v)] + tail =~= e);
    }
}

fn push_be(out: &mut Vec<u8>, n: u32)
    ensures
        final(out)@ == old(out)@ + be_bytes(n as nat),
{
    let q1 = n / 256;
    let q2 = q1 / 256;
    let q3 = q2 / 256;
    out.push((q3 % 256) as u8);
    out.push((q2 % 256) as u8);
    out.push((q1 % 256) as u8);
    out.push((n % 256) as u8);
    assert(final(out)@ =~= old(out)@ + be_bytes(n as nat));
}

fn push_bytes(out: &mut Vec<u8>, b: &Vec<u8>)
    ensures
        final(out)@ == old(out)@ + b@,
{
    let mut i: usize = 0;
    let ghost start = out@;
    while i < b.len()
        invariant
            i <= b.len(),
            out@ == start + b@.subrange(0, i as int),
        decreases b.len() - i,
    {
        out.push(b[i]);
        i = i + 1;
        assert(out@ =~= start + b@.subrange(0, i as int));
    }
    assert(b@.subrange(0, i as int) =~= b@);
}

fn read_be(s: &[u8], pos: usize) -> (r: usize)
    requires
        pos + 4 <= s.len(),
    ensures
        r == be_value(s@.subrange(pos as int, s.len() as int)),
{
    (s[pos] as usize) * 16777216 + (s[pos + 1] as usize) * 65536 + (s[pos + 2] as usize) * 256 + (
    s[pos + 3] as usize)
}

impl VaultShard {
    /// The saved form of this shard's records.
    pub fn snapshot(&self) -> (r: Vec<u8>)
        requires
            fits_u32(self.entries()),
        ensures
            r@ == encode(self.entries()),
    {
        let mut out: Vec<u8> = Vec::new();
        out.push(83);
        out.push(86);
        out.push(76);
        out.push(84);
        assert(out@ =~= magic());
        let ghost e = self.entries();
        let mut i: usize = 0;
        while i < self.records.len()
            invariant
                e == self.entries(),
                fits_u32(e),
                i <= e.len(),
                out@ == magic() + encode_records(e.subrange(0, i as int)),
            decreases self.records.len() - i,
        {
            proof {
                assert(e[i as int].0.len() <= u32::MAX && e[i as int].1.len() <= u32::MAX);
                lemma_encode_push(e.subrange(0, i as int), e[i as int]);
                assert(e.subrange(0, i + 1) =~= e.subrange(0, i as int).push(e[i as int]));
            }
            let ghost before = out@;
            let r = &self.records[i];
            push_be(&mut out, r.0.len() as u32);
            push_bytes(&mut out, &r.0);
            push_be(&mut out, r.1.len() as u32);
            push_bytes(&mut out, &r.1);
            assert(out@ =~= before + frame(e[i as int].0) + frame(e[i as int].1));
            i = i + 1;
        }
        assert(e.subrange(0, e.len() as int) =~= e);
        out
    }

    /// A shard with the given identity, holding the records saved in `saved`.
    /// Fails on an invalid identity, and on bytes that are not a saved form
    /// with distinct keys.
    #[verifier::rlimit(60)]
    pub fn restore(id: u8, threshold: u8, total_shares: u8, saved: &[u8]) -> (r: Result<
        VaultShard,
        ShardError,
    >)
        ensures
            !valid_identity(id as int, threshold as int, total_shares as int) ==> r == Err::<
                VaultShard,
                ShardError,
            >(ShardError::InvalidConfig),
            valid_identity(id as int, threshold as int, total_shares as int) ==> match decode(
                saved@,
            ) {
                Some(e) => if keys_unique(e) {
                    r matches Ok(s) && s.wf() && s.id == id && s.threshold == threshold
                        && s.total_shares == total_shares && s.entries() == e
                } else {
                    r == Err::<VaultShard, ShardError>(ShardError::Corrupt)
                },
                None => r == Err::<VaultShard, ShardError>(ShardError::Corrupt),
            },
    {
        if threshold == 0 || threshold > total_shares || id >= total_shares {
            return Err(ShardError::InvalidConfig);
        }
        if saved.len() < 4 || saved[0] != 83 || saved[1] != 86 || saved[2] != 76 || saved[3] != 84 {
            proof {
                if saved.len() >= 4 {
                    assert(saved@.subrange(0, 4)[0] == saved@[0]);
                    assert(saved@.subrange(0, 4)[1] == saved@[1]);
                    assert(saved@.subrange(0, 4)[2] == saved@[2]);
                    assert(saved@.subrange(0, 4)[3] == saved@[3]);
                }
            }
            return Err(ShardError::Corrupt);
        }
        assert(saved@.subrange(0, 4) =~= magic());
        let ghost body = saved@.subrange(4, saved@.len() as int);
        let mut records: Vec<(Vec<u8>, Vec<u8>)> = Vec::new();
        let mut pos: usize = 4;
        while pos < saved.len()
            invariant
                valid_identity(id as int, threshold as int, total_shares as int),
                4 <= pos <= saved.len(),
                body == saved@.subrange(4, saved@.len() as int),
                parse_records(body) == prepend(
                    record_views(records@),
                    parse_records(saved@.subrange(pos as int, saved@.len() as int)),
                ),
            decreases saved.len() - pos,
        {
            let ghost s = saved@.subrange(pos as int, saved@.len() as int);
            if saved.len() - pos < 4 {
                return Err(ShardError::Corrupt);
            }
            let kl = read_be(saved, pos);
            if saved.len() - pos - 4 < kl || saved.len() - pos - 4 - kl < 4 {
                return Err(ShardError::Corrupt);
            }
            let key = copy_range(saved, pos + 4, pos + 4 + kl);
            assert(s.subrange(4 + kl, s.len() as int) =~= saved@.subrange(
                (pos + 4 + kl) as int,
                saved@.len() as int,
            ));
            let vl = read_be(saved, pos + 4 + kl);
            if saved.len() - pos - 8 - kl < vl {
                return Err(ShardError::Corrupt);
            }
            let value = copy_range(saved, pos + 8 + kl, pos + 8 + kl + vl);
            assert(key@ =~= s.subrange(4, 4 + kl));
            assert(value@ =~= s.subrange(8 + kl, 8 + kl + vl));
            assert(s.subrange(8 + kl + vl, s.len() as int) =~= saved@.subrange(
                (pos + 8 + kl + vl) as int,
                saved@.len() as int,
            ));
            let ghost before = record_views(records@);
            records.push((key, value));
            assert(record_views(records@) =~= before.push((key@, value@)));
            proof {
                let rest = parse_records(
                    saved@.subrange((pos + 8 + kl + vl) as int, saved@.len() as int),
                );
                if rest is Some {
                    assert(before + (seq![(key@, value@)] + rest->Some_0) =~= before.push(
                        (key@, value@),
                    ) + rest->Some_0);
                }
            }
            pos = pos + 8 + kl + vl;
        }
        assert(saved@.subrange(pos as int, saved@.len() as int) =~= Seq::<u8>::empty());
        assert(record_views(records@) + Seq::empty() =~= record_views(records@));
        let ghost e = record_views(records@);
        if !keys_distinct(&records) {
            return Err(ShardError::Corrupt);
        }
        let s = VaultShard { id, threshold, total_shares, records };
        assert(s.entries() =~= e);
        Ok(s)
    }
}

pub open spec fn record_views(r: Seq<(Vec<u8>, Vec<u8>)>) -> Seq<(Seq<u8>, Seq<u8>)> {
    r.map_values(|x: (Vec<u8>, Vec<u8>)| (x.0@, x.1@))
}

pub open spec fn prepend(
    acc: Seq<(Seq<u8>, Seq<u8>)>,
    o: Option<Seq<(Seq<u8>, Seq<u8>)>>,
) -> Option<Seq<(Seq<u8>, Seq<u8>)>> {
    match o {
        Some(r) => Some(acc + r),
        None => None,
    }
}

proof fn lemma_encode_push(e: Seq<(Seq<u8>, Seq<u8>)>, x: (Seq<u8>, Seq<u8>))
    ensures
        encode_records(e.push(x)) == encode_records(e) + frame(x.0) + frame(x.1),
    decreases e.len(),
{
    if e.len() == 0 {
        assert(e.push(x).drop_first() =~= Seq::empty());
        assert(e.push(x)[0] == x);
        assert(encode_records(e.push(x).drop_first()) == Seq::<u8>::empty());
        assert(encode_records(e.push(x)) =~= encode_records(e) + frame(x.0) + frame(x.1));
    } else {
        lemma_encode_push(e.drop_first(), x);
        assert(e.push(x).drop_first() =~= e.drop_first().push(x));
        assert(e.push(x)[0] == e[0]);
        let f0 = frame(e[0].0) + frame(e[0].1);
        let t = encode_records(e.drop_first());
        assert(encode_records(e.push(x)) == f0 + (t + frame(x.0) + frame(x.1)));
        assert(encode_records(e) == f0 + t);
        assert(f0 + (t + frame(x.0) + frame(x.1)) =~= f0 + t + frame(x.0) + frame(x.1));
    }
}

fn copy_range(s: &[u8], from: usize, to: usize) -> (r: Vec<u8>)
    requires
        from <= to <= s.len(),
    ensures
        r@ == s@.subrange(from as int, to as int),
{
    let mut r: Vec<u8> = Vec::new();
    let mut i: usize = from;
    while i < to
        invariant
            from <= i <= to,
            to <= s.len(),
            r@ == s@.subrange(from as int, i as int),
        decreases to - i,
    {
        r.push(s[i]);
        i = i + 1;
        assert(r@ =~= s@.subrange(from as int, i as int));
    }
    r
}

fn keys_distinct(records: &Vec<(Vec<u8>, Vec<u8>)>) -> (r: bool)
    ensures
        r == keys_unique(record_views(records@)),
{
    let n = records.len();
    let mut i: usize = 0;
    while i < n
        invariant
            n == records.len(),
            i <= n,
            forall|a: int, b: int|
                0 <= a < b < n && a < i ==> record_views(records@)[a].0 != record_views(records@)[b].0,
        decreases n - i,
    {
        let mut j: usize = i + 1;
        while j < n
            invariant
                n == records.len(),
                i < j <= n,
                forall|a: int, b: int|
                    0 <= a < b < n && a < i ==> record_views(records@)[a].0 != record_views(records@)[b].0,
                forall|b: int| i < b < j ==> record_views(records@)[i as int].0 != record_views(records@)[b].0,
            decreases n - j,
        {
            if crate::shard::bytes_equal(records[i].0.as_slice(), records[j].0.as_slice()) {
                assert(record_views(records@)[i as int].0 == record_views(records@)[j as int].0);
                return false;
            }
            j = j + 1;
        }
        i = i + 1;
    }
    true
}

} // verus!
