//! The guarantees of the cache, stated over the same models that the
//! request handlers' contracts use: the map view of the store,
//! [`get_outcome`] / [`get_data_outcome`] for reads, [`receive_step`] for a
//! whole handled request, and `Map::insert` for what a set does.
//!
//! The wire-level laws speak of actual request texts, built by
//! [`set_message`] and [`get_message`], run through [`receive_step`] — the
//! exact function that `ShareMemory::receive_message_at` is proved to
//! implement.

use vstd::prelude::*;
use crate::store::EntryModel;
use crate::codec::{
    CHUNK_SIZE,
    chunked_response,
    dec_digits,
    lemma_dec_digits_shape,
    lemma_dec_digits_parse,
};
use crate::text::{
    crlf,
    crlf2,
    match_at,
    first_match_from,
    lemma_first_match_bounds,
    split_seq,
    lemma_split_none,
    lemma_split_concat,
    eq_ci,
    lower_code,
    is_digit,
};
use crate::protocol::{
    get_outcome,
    get_data_outcome,
    receive_step,
    set_message,
    get_message,
    wire_key,
    wire_value,
    line_duration,
    fold_duration,
    trim_value,
    sp,
    resp_ok_value,
    resp_ok_empty,
    resp_ok_insert,
    resp_err_expired,
};

verus! {

/// Setting a key and reading it back at the same instant returns the value
/// just stored, unchanged, for every key, value and positive time-to-live;
/// the retrieval path frames it chunked exactly when it is longer than
/// `CHUNK_SIZE`.
pub proof fn lemma_set_then_get(
    m: Map<Seq<char>, EntryModel>,
    key: Seq<char>,
    value: Seq<char>,
    ttl: int,
    now: int,
)
    requires
        ttl > 0,
    ensures
        ({
            let m2 = m.insert(key, EntryModel { data: value, ttl, created: now });
            get_outcome(m2, key, now) == (m2, resp_ok_value(value)) && get_data_outcome(
                m2,
                key,
                now,
            ) == (
                m2,
                if value.len() > CHUNK_SIZE {
                    chunked_response(value)
                } else {
                    resp_ok_value(value)
                },
            )
        }),
{
}

/// Once an entry's age exceeds its time-to-live, a read returns the expiry
/// error and removes the entry, and a second read immediately after answers
/// as for an absent key, not with the expiry error again.
pub proof fn lemma_expiry_reported_once(
    m: Map<Seq<char>, EntryModel>,
    key: Seq<char>,
    value: Seq<char>,
    ttl: int,
    created: int,
    t: int,
)
    requires
        t - created > ttl,
    ensures
        ({
            let m1 = m.insert(key, EntryModel { data: value, ttl, created });
            let (m2, r1) = get_outcome(m1, key, t);
            let (m3, r2) = get_outcome(m2, key, t);
            r1 == resp_err_expired() && m2 == m1.remove(key) && r2 == resp_ok_empty() && m3 == m2
        }),
{
}

/// A second set of the same key replaces the entry whole: the store holds
/// exactly the later value, time-to-live and creation time, with no trace
/// of the first set.
pub proof fn lemma_set_overwrites(
    m: Map<Seq<char>, EntryModel>,
    key: Seq<char>,
    e1: EntryModel,
    e2: EntryModel,
)
    ensures
        m.insert(key, e1).insert(key, e2) == m.insert(key, e2),
        m.insert(key, e1).insert(key, e2)[key] == e2,
{
    assert(m.insert(key, e1).insert(key, e2) =~= m.insert(key, e2));
}

// ===== the same laws at the wire level =====

/// Handling the set request text built from `key`, `value` and `ttl`
/// inserts exactly that entry, stamped `now`, and answers with the insert
/// confirmation — whatever default time-to-live is in force.
pub proof fn lemma_message_set(
    m: Map<Seq<char>, EntryModel>,
    key: Seq<char>,
    value: Seq<char>,
    ttl: int,
    now: int,
    dflt: int,
)
    requires
        wire_key(key),
        wire_value(value),
        0 <= ttl <= i64::MAX,
    ensures
        receive_step(m, set_message(key, value, ttl), now, dflt) == (
            m.insert(key, EntryModel { data: value, ttl, created: now }),
            resp_ok_insert(),
        ),
{
    reveal_strlit("set ");
    reveal_strlit("set");
    reveal_strlit("duration: ");
    reveal_strlit("duration:");
    lemma_dec_digits_shape(ttl);
    lemma_dec_digits_parse(ttl);
    let ds = dec_digits(ttl);
    let l0 = "set "@ + key;
    let l1 = "duration: "@ + ds;
    let head = l0 + crlf() + l1;
    let tail = value + crlf2();
    let msg = set_message(key, value, ttl);
    assert(msg =~= head + crlf2() + tail);

    // the only carriage return in the head is its one line break
    assert forall|k: int| 0 <= k < head.len() implies (head[k] == '\r' <==> k == l0.len()) by {
        if k < l0.len() {
            if k < 4 {
                assert(head[k] == "set "@[k]);
            } else {
                assert(head[k] == key[k - 4]);
            }
        } else if k == l0.len() + 1 {
            assert(head[k] == '\n');
        } else if k > l0.len() + 1 {
            let j = k - l0.len() - 2;
            if j < 10 {
                assert(head[k] == "duration: "@[j]);
            } else {
                assert(head[k] == ds[j - 10]);
                assert(is_digit(ds[j - 10]));
            }
        }
    };

    // the message splits into head, value, and an empty trailer
    assert forall|k: int| 0 <= k < head.len() implies !match_at(msg, crlf2(), k) by {
        if match_at(msg, crlf2(), k) {
            assert(msg.subrange(k, k + 4)[0] == '\r');
            assert(msg[k] == head[k]);
            assert(k == l0.len());
            assert(msg.subrange(k, k + 4)[2] == '\r');
            assert(msg[k + 2] == head[k + 2]);
        }
    };
    lemma_split_concat(head, crlf2(), tail);
    assert(tail =~= value + crlf2() + Seq::<char>::empty());
    assert forall|k: int|
        0 <= k < value.len() implies !match_at(value + crlf2() + Seq::<char>::empty(), crlf2(), k) by {
        if match_at(value + crlf2() + Seq::<char>::empty(), crlf2(), k) {
            assert((value + crlf2() + Seq::<char>::empty()).subrange(k, k + 4)[0] == '\r');
            assert((value + crlf2() + Seq::<char>::empty())[k] == value[k]);
        }
    };
    lemma_split_concat(value, crlf2(), Seq::<char>::empty());
    lemma_split_none(Seq::<char>::empty(), crlf2());
    let parts = split_seq(msg, crlf2());
    assert(parts =~= seq![head, value, Seq::<char>::empty()]);
    assert(match_at(msg, crlf2(), head.len() as int)) by {
        assert(msg.subrange(head.len() as int, head.len() + 4 as int) =~= crlf2());
    }
    lemma_first_match_bounds(msg, crlf2(), 0);
    assert(first_match_from(msg, crlf2(), 0) is Some);

    // the head splits into its two lines
    assert forall|k: int| 0 <= k < l0.len() implies !match_at(head, crlf(), k) by {
        if match_at(head, crlf(), k) {
            assert(head.subrange(k, k + 2)[0] == '\r');
        }
    };
    assert(head == l0 + crlf() + l1);
    lemma_split_concat(l0, crlf(), l1);
    assert forall|k: int| !match_at(l1, crlf(), k) by {
        if match_at(l1, crlf(), k) {
            assert(l1.subrange(k, k + 2)[0] == '\r');
            assert(head[k + l0.len() + 2] == l1[k]);
        }
    };
    lemma_split_none(l1, crlf());
    let lines = split_seq(head, crlf());
    assert(lines =~= seq![l0, l1]);

    // the first line tokenises into the method and the key
    assert(l0 =~= "set"@ + sp() + key);
    assert forall|k: int| 0 <= k < 3 implies !match_at("set"@ + sp() + key, sp(), k) by {
        if match_at("set"@ + sp() + key, sp(), k) {
            assert(("set"@ + sp() + key).subrange(k, k + 1)[0] == ' ');
            assert(("set"@ + sp() + key)[k] == "set"@[k]);
        }
    };
    lemma_split_concat("set"@, sp(), key);
    assert forall|k: int| !match_at(key, sp(), k) by {
        if match_at(key, sp(), k) {
            assert(key.subrange(k, k + 1)[0] == ' ');
        }
    };
    lemma_split_none(key, sp());
    let toks = split_seq(l0, sp());
    assert(toks =~= seq!["set"@, key]);
    assert(eq_ci(toks[0], "set"@));

    // the duration line carries exactly the rendered time-to-live
    assert(l1 =~= "duration:"@ + sp() + ds);
    assert forall|k: int| 0 <= k < 9 implies !match_at("duration:"@ + sp() + ds, sp(), k) by {
        if match_at("duration:"@ + sp() + ds, sp(), k) {
            assert(("duration:"@ + sp() + ds).subrange(k, k + 1)[0] == ' ');
            assert(("duration:"@ + sp() + ds)[k] == "duration:"@[k]);
        }
    };
    lemma_split_concat("duration:"@, sp(), ds);
    assert forall|k: int| !match_at(ds, sp(), k) by {
        if match_at(ds, sp(), k) {
            assert(ds.subrange(k, k + 1)[0] == ' ');
            assert(is_digit(ds[k]));
        }
    };
    lemma_split_none(ds, sp());
    assert(split_seq(l1, sp()) =~= seq!["duration:"@, ds]);
    assert(eq_ci("duration:"@, "duration:"@));
    assert(line_duration(l1) == Some(ttl));
    assert(lines.drop_first() =~= seq![l1]);
    assert(seq![l1].drop_first() =~= Seq::<Seq<char>>::empty());
    assert(fold_duration(Seq::<Seq<char>>::empty(), ttl) == ttl);
    assert(fold_duration(seq![l1], dflt) == fold_duration(seq![l1].drop_first(), ttl));
    assert(fold_duration(lines.drop_first(), dflt) == ttl);

    // the stored text is the value itself
    assert(trim_value(value) == value) by {
        if value.len() >= 2 && value.skip(value.len() - 2) == crlf() {
            assert(value[value.len() - 2] == value.skip(value.len() - 2)[0]);
        }
    }
}

/// Handling the get request text built from `key` reads exactly that key:
/// the request and the store-level read have the same outcome.
pub proof fn lemma_message_get(m: Map<Seq<char>, EntryModel>, key: Seq<char>, now: int, dflt: int)
    requires
        wire_key(key),
    ensures
        receive_step(m, get_message(key), now, dflt) == get_outcome(m, key, now),
{
    reveal_strlit("get ");
    reveal_strlit("get");
    reveal_strlit("set");
    let msg = get_message(key);
    assert forall|k: int| 0 <= k < msg.len() implies msg[k] != '\r' by {
        if k < 4 {
            assert(msg[k] == "get "@[k]);
        } else {
            assert(msg[k] == key[k - 4]);
        }
    };
    assert forall|k: int| !match_at(msg, crlf2(), k) by {
        if match_at(msg, crlf2(), k) {
            assert(msg.subrange(k, k + 4)[0] == '\r');
        }
    };
    lemma_first_match_bounds(msg, crlf2(), 0);
    assert(first_match_from(msg, crlf2(), 0) is None);
    assert forall|k: int| !match_at(msg, crlf(), k) by {
        if match_at(msg, crlf(), k) {
            assert(msg.subrange(k, k + 2)[0] == '\r');
        }
    };
    lemma_split_none(msg, crlf());
    assert(split_seq(msg, crlf())[0] == msg);
    assert(msg =~= "get"@ + sp() + key);
    assert forall|k: int| 0 <= k < 3 implies !match_at("get"@ + sp() + key, sp(), k) by {
        if match_at("get"@ + sp() + key, sp(), k) {
            assert(("get"@ + sp() + key).subrange(k, k + 1)[0] == ' ');
            assert(("get"@ + sp() + key)[k] == "get"@[k]);
        }
    };
    lemma_split_concat("get"@, sp(), key);
    assert forall|k: int| !match_at(key, sp(), k) by {
        if match_at(key, sp(), k) {
            assert(key.subrange(k, k + 1)[0] == ' ');
        }
    };
    lemma_split_none(key, sp());
    let toks = split_seq(msg, sp());
    assert(toks =~= seq!["get"@, key]);
    assert(!eq_ci("get"@, "set"@)) by {
        assert(lower_code("get"@[0]) != lower_code("set"@[0]));
    }
    assert(eq_ci("get"@, "get"@));
}

/// A set request followed immediately by a get of the same key returns the
/// value unchanged, for every key, value and positive time-to-live.
pub proof fn lemma_wire_set_then_get(
    m: Map<Seq<char>, EntryModel>,
    key: Seq<char>,
    value: Seq<char>,
    ttl: int,
    now: int,
    dflt: int,
)
    requires
        wire_key(key),
        wire_value(value),
        0 < ttl <= i64::MAX,
    ensures
        ({
            let (m1, r1) = receive_step(m, set_message(key, value, ttl), now, dflt);
            let (m2, r2) = receive_step(m1, get_message(key), now, dflt);
            r1 == resp_ok_insert() && r2 == resp_ok_value(value) && m2 == m1
        }),
{
    lemma_message_set(m, key, value, ttl, now, dflt);
    let m1 = m.insert(key, EntryModel { data: value, ttl, created: now });
    lemma_message_get(m1, key, now, dflt);
}

/// A get after more simulated time than the request's own time-to-live —
/// however large the default in force — answers with the expiry error and
/// removes the entry; a second get answers as for an absent key.
pub proof fn lemma_wire_expiry_once(
    m: Map<Seq<char>, EntryModel>,
    key: Seq<char>,
    value: Seq<char>,
    ttl: int,
    now: int,
    later: int,
    dflt: int,
)
    requires
        wire_key(key),
        wire_value(value),
        0 <= ttl <= i64::MAX,
        later - now > ttl,
    ensures
        ({
            let (m1, r1) = receive_step(m, set_message(key, value, ttl), now, dflt);
            let (m2, r2) = receive_step(m1, get_message(key), later, dflt);
            let (m3, r3) = receive_step(m2, get_message(key), later, dflt);
            r1 == resp_ok_insert() && r2 == resp_err_expired() && m2 == m1.remove(key) && r3
                == resp_ok_empty() && m3 == m2
        }),
{
    lemma_message_set(m, key, value, ttl, now, dflt);
    let m1 = m.insert(key, EntryModel { data: value, ttl, created: now });
    lemma_message_get(m1, key, later, dflt);
    let m2 = m1.remove(key);
    lemma_message_get(m2, key, later, dflt);
}

/// A second set of the same key over the wire overwrites the first whole
/// and resets the entry's age to the later request's instant.
pub proof fn lemma_wire_set_overwrites(
    m: Map<Seq<char>, EntryModel>,
    key: Seq<char>,
    v1: Seq<char>,
    t1: int,
    now1: int,
    v2: Seq<char>,
    t2: int,
    now2: int,
    dflt: int,
)
    requires
        wire_key(key),
        wire_value(v1),
        wire_value(v2),
        0 <= t1 <= i64::MAX,
        0 <= t2 <= i64::MAX,
    ensures
        ({
            let (m1, _r1) = receive_step(m, set_message(key, v1, t1), now1, dflt);
            let (m2, _r2) = receive_step(m1, set_message(key, v2, t2), now2, dflt);
            m2 == m.insert(key, EntryModel { data: v2, ttl: t2, created: now2 }) && m2[key]
                == EntryModel { data: v2, ttl: t2, created: now2 }
        }),
{
    lemma_message_set(m, key, v1, t1, now1, dflt);
    let m1 = m.insert(key, EntryModel { data: v1, ttl: t1, created: now1 });
    lemma_message_set(m1, key, v2, t2, now2, dflt);
    assert(m1.insert(key, EntryModel { data: v2, ttl: t2, created: now2 }) =~= m.insert(
        key,
        EntryModel { data: v2, ttl: t2, created: now2 },
    ));
}

} // verus!
