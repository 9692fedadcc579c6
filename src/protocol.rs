//! The shard's text protocol: one command in, one response out.
use crate::shard::{
    error_message, get_outcome, lemma_distinct_keys_count, store_outcome, stored_all, ShardError,
    VaultShard,
};
use vstd::prelude::*;
use vstd::string::{is_ascii, StringSliceAdditionalSpecFns};

verus! {

broadcast use vstd::string::group_string_axioms;

pub open spec fn text_bytes(s: Seq<char>) -> Seq<u8> {
    s.map_values(|c: char| c as u8)
}

/// Appends the ASCII text `s` to `out`.
fn append_text(out: &mut Vec<u8>, s: &str)
    requires
        is_ascii(s),
    ensures
        final(out)@ == old(out)@ + text_bytes(s@),
{
    let b = s.as_bytes();
    let mut i: usize = 0;
    let ghost start = out@;
    while i < b.len()
        invariant
            b@ == text_bytes(s@),
            i <= b.len(),
            out@ == start + b@.subrange(0, i as int),
        decreases b.len() - i,
    {
        out.push(b[i]);
        i = i + 1;
        assert(out@ =~= start + b@.subrange(0, i as int));
    }
    assert(b@.subrange(0, i as int) =~= b@);
}

/// The bytes that separate tokens: space, and tab through carriage return.
pub open spec fn is_space(b: u8) -> bool {
    b == 32 || (9 <= b && b <= 13)
}

pub open spec fn flush(cur: Seq<u8>) -> Seq<Seq<u8>> {
    if cur.len() == 0 {
        Seq::empty()
    } else {
        seq![cur]
    }
}

/// The tokens of `s` from position `i` on, with `cur` the part of a token already read.
pub open spec fn tokens_from(s: Seq<u8>, i: int, cur: Seq<u8>) -> Seq<Seq<u8>>
    decreases s.len() - i,
{
    if i >= s.len() || i < 0 {
        flush(cur)
    } else if is_space(s[i]) {
        flush(cur) + tokens_from(s, i + 1, Seq::empty())
    } else {
        tokens_from(s, i + 1, cur.push(s[i]))
    }
}

/// The maximal runs of non-space bytes of `s`, in order.
pub open spec fn tokens(s: Seq<u8>) -> Seq<Seq<u8>> {
    tokens_from(s, 0, Seq::empty())
}

pub open spec fn views(v: Seq<Vec<u8>>) -> Seq<Seq<u8>> {
    v.map_values(|t: Vec<u8>| t@)
}

/// Splits `input` into its tokens.
pub fn tokenize(input: &[u8]) -> (r: Vec<Vec<u8>>)
    ensures
        views(r@) == tokens(input@),
{
    let mut toks: Vec<Vec<u8>> = Vec::new();
    let mut cur: Vec<u8> = Vec::new();
    let mut i: usize = 0;
    while i < input.len()
        invariant
            i <= input.len(),
            views(toks@) + tokens_from(input@, i as int, cur@) == tokens(input@),
        decreases input.len() - i,
    {
        let b = input[i];
        if b == 32 || (9 <= b && b <= 13) {
            let ghost old_toks = views(toks@);
            let ghost old_cur = cur@;
            if cur.len() > 0 {
                toks.push(cur);
                cur = Vec::new();
            }
            assert(views(toks@) =~= old_toks + flush(old_cur));
            assert(old_toks + (flush(old_cur) + tokens_from(input@, i + 1, Seq::empty())) =~= (
            old_toks + flush(old_cur)) + tokens_from(input@, i + 1, Seq::empty()));
            assert(cur@ =~= Seq::<u8>::empty());
        } else {
            cur.push(b);
        }
        i = i + 1;
    }
    let ghost old_toks = views(toks@);
    let ghost old_cur = cur@;
    if cur.len() > 0 {
        toks.push(cur);
    }
    assert(views(toks@) =~= old_toks + flush(old_cur));
    toks
}

/// The decimal digits of `n`, most significant first.
pub open spec fn decimal(n: nat) -> Seq<u8>
    decreases n,
{
    if n < 10 {
        seq![(48 + n) as u8]
    } else {
        decimal(n / 10).push((48 + n % 10) as u8)
    }
}

/// Appends the decimal digits of `n` to `out`.
pub fn append_decimal(out: &mut Vec<u8>, n: usize)
    ensures
        final(out)@ == old(out)@ + decimal(n as nat),
    decreases n,
{
    if n < 10 {
        out.push((48 + n) as u8);
    } else {
        append_decimal(out, n / 10);
        out.push((48 + n % 10) as u8);
        assert(final(out)@ =~= old(out)@ + decimal(n as nat));
    }
}

pub open spec fn status_text(id: nat, total: nat, threshold: nat, count: nat) -> Seq<u8> {
    text_bytes("Shard: "@) + decimal(id) + text_bytes("/"@) + decimal(total) + text_bytes(
        "\nThreshold: "@,
    ) + decimal(threshold) + text_bytes("\nKeys: "@) + decimal(count) + text_bytes("\n"@)
}

pub open spec fn error_line(e: ShardError) -> Seq<u8> {
    text_bytes("ERR: "@) + text_bytes(error_message(e)) + text_bytes("\n"@)
}

/// The contents after the command `toks`, and the response to it, for a shard
/// with the given identity and contents `m`.
pub open spec fn respond(
    id: u8,
    threshold: u8,
    total: u8,
    m: Map<Seq<u8>, Seq<u8>>,
    toks: Seq<Seq<u8>>,
) -> (Map<Seq<u8>, Seq<u8>>, Seq<u8>) {
    if toks.len() == 0 {
        (m, text_bytes("ERR: Empty command\n"@))
    } else if toks[0] == text_bytes("STORE"@) && toks.len() == 3 {
        let (m2, r) = store_outcome(m, toks[1], toks[2]);
        match r {
            Ok(_) => (m2, text_bytes("OK: Secret stored\n"@)),
            Err(e) => (m2, error_line(e)),
        }
    } else if toks[0] == text_bytes("GET"@) && toks.len() == 2 {
        match get_outcome(m, toks[1]) {
            Ok(v) => (m, v + text_bytes("\n"@)),
            Err(e) => (m, error_line(e)),
        }
    } else if toks[0] == text_bytes("STATUS"@) && toks.len() == 1 {
        (m, status_text(id as nat, total as nat, threshold as nat, m.dom().len()))
    } else {
        (m, text_bytes("ERR: Invalid command\n"@))
    }
}

fn append_error(out: &mut Vec<u8>, e: ShardError)
    ensures
        final(out)@ == old(out)@ + error_line(e),
{
    proof {
        reveal_strlit("ERR: ");
        reveal_strlit("\n");
        reveal_strlit("Invalid shard configuration");
        reveal_strlit("Key already exists");
        reveal_strlit("Key not found");
        reveal_strlit("Corrupt storage");
    }
    append_text(out, "ERR: ");
    append_text(out, e.message());
    append_text(out, "\n");
    assert(final(out)@ =~= old(out)@ + error_line(e));
}

/// Carries out one command, given as the bytes a client sent, and returns the
/// response.
pub fn handle_request(shard: &mut VaultShard, input: &[u8]) -> (r: Vec<u8>)
    requires
        old(shard).wf(),
    ensures
        final(shard).wf(),
        final(shard).id == old(shard).id,
        final(shard).threshold == old(shard).threshold,
        final(shard).total_shares == old(shard).total_shares,
        (final(shard).contents(), r@) == respond(
            old(shard).id,
            old(shard).threshold,
            old(shard).total_shares,
            old(shard).contents(),
            tokens(input@),
        ),
{
    proof {
        reveal_strlit("ERR: Empty command\n");
        reveal_strlit("STORE");
        reveal_strlit("GET");
        reveal_strlit("STATUS");
        reveal_strlit("OK: Secret stored\n");
        reveal_strlit("\n");
        reveal_strlit("Shard: ");
        reveal_strlit("/");
        reveal_strlit("\nThreshold: ");
        reveal_strlit("\nKeys: ");
        reveal_strlit("ERR: Invalid command\n");
    }
    let toks = tokenize(input);
    assert(views(toks@).len() == toks.len());
    let mut out: Vec<u8> = Vec::new();
    if toks.len() == 0 {
        append_text(&mut out, "ERR: Empty command\n");
        return out;
    }
    assert(views(toks@)[0] == toks@[0]@);
    let verb = toks[0].as_slice();
    let store_verb = "STORE".as_bytes();
    let get_verb = "GET".as_bytes();
    let status_verb = "STATUS".as_bytes();
    assert(is_ascii("STORE") && is_ascii("GET") && is_ascii("STATUS"));
    assert(store_verb@ == text_bytes("STORE"@));
    assert(get_verb@ == text_bytes("GET"@));
    assert(status_verb@ == text_bytes("STATUS"@));
    if crate::shard::bytes_equal(verb, store_verb) && toks.len() == 3 {
        assert(views(toks@)[1] == toks@[1]@);
        assert(views(toks@)[2] == toks@[2]@);
        match shard.store(toks[1].as_slice(), toks[2].as_slice()) {
            Ok(()) => append_text(&mut out, "OK: Secret stored\n"),
            Err(e) => append_error(&mut out, e),
        }
    } else if crate::shard::bytes_equal(verb, get_verb) && toks.len() == 2 {
        assert(views(toks@)[1] == toks@[1]@);
        match shard.get(toks[1].as_slice()) {
            Ok(v) => {
                out = v;
                append_text(&mut out, "\n");
            },
            Err(e) => append_error(&mut out, e),
        }
    } else if crate::shard::bytes_equal(verb, status_verb) && toks.len() == 1 {
        let ghost start = out@;
        append_text(&mut out, "Shard: ");
        append_decimal(&mut out, shard.id as usize);
        append_text(&mut out, "/");
        append_decimal(&mut out, shard.total_shares as usize);
        append_text(&mut out, "\nThreshold: ");
        append_decimal(&mut out, shard.threshold as usize);
        append_text(&mut out, "\nKeys: ");
        let count = shard.key_count();
        append_decimal(&mut out, count);
        append_text(&mut out, "\n");
        assert(out@ =~= status_text(
            shard.id as nat,
            shard.total_shares as nat,
            shard.threshold as nat,
            count as nat,
        ));
    } else {
        append_text(&mut out, "ERR: Invalid command\n");
    }
    out
}

/// After `k` distinct keys are stored into an empty shard, `STATUS` reports `Keys: k`.
pub proof fn lemma_status_after_distinct_stores(
    id: u8,
    threshold: u8,
    total: u8,
    keys: Seq<Seq<u8>>,
    shares: Seq<Seq<u8>>,
)
    requires
        shares.len() >= keys.len(),
        forall|i: int, j: int| 0 <= i < j < keys.len() ==> keys[i] != keys[j],
    ensures
        respond(id, threshold, total, stored_all(keys, shares), seq![text_bytes("STATUS"@)]).1
            == status_text(id as nat, total as nat, threshold as nat, keys.len()),
{
    lemma_distinct_keys_count(keys, shares);
}

} // verus!
