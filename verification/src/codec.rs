use vstd::prelude::*;
use crate::record::{RecordView, TravelExperience};

verus! {

// The record store persists each record as text: every number is rendered as
// 16 hex digits, and every piece of text is preceded by its length, so the
// whole record can be read back unambiguously.
//
// This format is the store's own persisted schema, chosen so that encoding
// and decoding are verified down to the character: round-trip and injectivity
// are proved below.  A backing region written in any other record encoding is
// not readable through this codec.

pub open spec fn hexdig(n: int) -> char {
    if n == 0 { '0' }
    else if n == 1 { '1' }
    else if n == 2 { '2' }
    else if n == 3 { '3' }
    else if n == 4 { '4' }
    else if n == 5 { '5' }
    else if n == 6 { '6' }
    else if n == 7 { '7' }
    else if n == 8 { '8' }
    else if n == 9 { '9' }
    else if n == 10 { 'a' }
    else if n == 11 { 'b' }
    else if n == 12 { 'c' }
    else if n == 13 { 'd' }
    else if n == 14 { 'e' }
    else { 'f' }
}

/// The i-th hex digit (most significant first) of a 64-bit number.
pub open spec fn nibble(x: u64, i: int) -> int {
    ((x >> (((15 - i) * 4) as u64)) & 0xf) as int
}

/// A 64-bit number as exactly 16 hex digits, most significant first.
pub open spec fn hex16(x: u64) -> Seq<char> {
    Seq::new(16, |i: int| hexdig(nibble(x, i)))
}

/// A piece of text, preceded by its length.
pub open spec fn enc_str(s: Seq<char>) -> Seq<char> {
    hex16(s.len() as u64) + s
}

/// A sequence of pieces of text, each preceded by its length.
pub open spec fn enc_events(es: Seq<Seq<char>>) -> Seq<char>
    decreases es.len(),
{
    if es.len() == 0 {
        Seq::empty()
    } else {
        enc_str(es[0]) + enc_events(es.drop_first())
    }
}

/// The serialized form of a record.
pub open spec fn encode_rec(v: RecordView) -> Seq<char> {
    hex16(v.id) + hex16(v.date) + enc_str(v.destination) + enc_str(v.notes) + hex16(
        v.historical_events.len() as u64,
    ) + enc_events(v.historical_events)
}

proof fn lemma_nibble_bound(x: u64, i: int)
    requires
        0 <= i < 16,
    ensures
        0 <= nibble(x, i) < 16,
{
    let sh = ((15 - i) * 4) as u64;
    assert((x >> sh) & 0xf < 16) by (bit_vector);
}

/// Renders a number as 16 hex digits.
fn hex16_str(x: u64) -> (s: String)
    ensures
        s@ == hex16(x),
{
    let mut s = String::new();
    let mut i: usize = 0;
    while i < 16
        invariant
            i <= 16,
            s@ == hex16(x).take(i as int),
        decreases 16 - i,
    {
        let sh: u64 = 60 - 4 * (i as u64);
        let nib: usize = ((x >> sh) & 0xf) as usize;
        proof {
            lemma_nibble_bound(x, i as int);
            assert(sh == (15 - i) * 4);
            assert(nib == nibble(x, i as int));
        }
        let digits = "0123456789abcdef";
        proof {
            reveal_strlit("0123456789abcdef");
            assert(digits@[0] == '0' && digits@[1] == '1' && digits@[2] == '2' && digits@[3]
                == '3' && digits@[4] == '4' && digits@[5] == '5' && digits@[6] == '6' && digits@[7]
                == '7' && digits@[8] == '8' && digits@[9] == '9' && digits@[10] == 'a'
                && digits@[11] == 'b' && digits@[12] == 'c' && digits@[13] == 'd' && digits@[14]
                == 'e' && digits@[15] == 'f');
            assert(digits@[nib as int] == hexdig(nib as int));
        }
        let d = digits.substring_char(nib, nib + 1);
        proof {
            assert(d@ =~= seq![hexdig(nib as int)]);
        }
        s.append(d);
        proof {
            assert(s@ =~= hex16(x).take(i + 1));
        }
        i += 1;
    }
    proof {
        assert(hex16(x).take(16) =~= hex16(x));
    }
    s
}

proof fn lemma_hexdig_injective(m: int, n: int)
    requires
        0 <= m < 16,
        0 <= n < 16,
        hexdig(m) == hexdig(n),
    ensures
        m == n,
{
}

pub proof fn lemma_hex16_injective(x: u64, y: u64)
    requires
        hex16(x) == hex16(y),
    ensures
        x == y,
{
    assert forall|i: int| 0 <= i < 16 implies nibble(x, i) == nibble(y, i) by {
        lemma_nibble_bound(x, i);
        lemma_nibble_bound(y, i);
        assert(hex16(x)[i] == hexdig(nibble(x, i)));
        assert(hex16(y)[i] == hexdig(nibble(y, i)));
        assert(hex16(x)[i] == hex16(y)[i]);
        lemma_hexdig_injective(nibble(x, i), nibble(y, i));
    }
    assert(nibble(x, 0) == nibble(y, 0));
    assert(nibble(x, 1) == nibble(y, 1));
    assert(nibble(x, 2) == nibble(y, 2));
    assert(nibble(x, 3) == nibble(y, 3));
    assert(nibble(x, 4) == nibble(y, 4));
    assert(nibble(x, 5) == nibble(y, 5));
    assert(nibble(x, 6) == nibble(y, 6));
    assert(nibble(x, 7) == nibble(y, 7));
    assert(nibble(x, 8) == nibble(y, 8));
    assert(nibble(x, 9) == nibble(y, 9));
    assert(nibble(x, 10) == nibble(y, 10));
    assert(nibble(x, 11) == nibble(y, 11));
    assert(nibble(x, 12) == nibble(y, 12));
    assert(nibble(x, 13) == nibble(y, 13));
    assert(nibble(x, 14) == nibble(y, 14));
    assert(nibble(x, 15) == nibble(y, 15));
    assert(x == y) by (bit_vector)
        requires
            (x >> 60u64) & 0xf == (y >> 60u64) & 0xf,
            (x >> 56u64) & 0xf == (y >> 56u64) & 0xf,
            (x >> 52u64) & 0xf == (y >> 52u64) & 0xf,
            (x >> 48u64) & 0xf == (y >> 48u64) & 0xf,
            (x >> 44u64) & 0xf == (y >> 44u64) & 0xf,
            (x >> 40u64) & 0xf == (y >> 40u64) & 0xf,
            (x >> 36u64) & 0xf == (y >> 36u64) & 0xf,
            (x >> 32u64) & 0xf == (y >> 32u64) & 0xf,
            (x >> 28u64) & 0xf == (y >> 28u64) & 0xf,
            (x >> 24u64) & 0xf == (y >> 24u64) & 0xf,
            (x >> 20u64) & 0xf == (y >> 20u64) & 0xf,
            (x >> 16u64) & 0xf == (y >> 16u64) & 0xf,
            (x >> 12u64) & 0xf == (y >> 12u64) & 0xf,
            (x >> 8u64) & 0xf == (y >> 8u64) & 0xf,
            (x >> 4u64) & 0xf == (y >> 4u64) & 0xf,
            (x >> 0u64) & 0xf == (y >> 0u64) & 0xf,
    ;
}

/// Reads back the 16 hex digits standing at `pos`.
fn parse_hex16(s: &str, pos: usize, x: Ghost<u64>) -> (r: u64)
    requires
        pos + 16 <= s@.len(),
        s@.len() <= usize::MAX,
        s@.subrange(pos as int, pos as int + 16) == hex16(x@),
    ensures
        r == x@,
{
    let mut acc: u64 = 0;
    let mut i: usize = 0;
    while i < 16
        invariant
            i <= 16,
            pos + 16 <= s@.len(),
            s@.len() <= usize::MAX,
            s@.subrange(pos as int, pos as int + 16) == hex16(x@),
            i == 0 ==> acc == 0,
            1 <= i <= 15 ==> acc == x@ >> (((16 - i) * 4) as u64),
            i == 16 ==> acc == x@,
        decreases 16 - i,
    {
        let c = s.get_char(pos + i);
        proof {
            assert(c == hex16(x@)[i as int]);
            lemma_nibble_bound(x@, i as int);
        }
        let ghost nb = nibble(x@, i as int);
        let nib: u64 = if c == '0' { 0 }
        else if c == '1' { 1 }
        else if c == '2' { 2 }
        else if c == '3' { 3 }
        else if c == '4' { 4 }
        else if c == '5' { 5 }
        else if c == '6' { 6 }
        else if c == '7' { 7 }
        else if c == '8' { 8 }
        else if c == '9' { 9 }
        else if c == 'a' { 10 }
        else if c == 'b' { 11 }
        else if c == 'c' { 12 }
        else if c == 'd' { 13 }
        else if c == 'e' { 14 }
        else if c == 'f' { 15 }
        else {
            proof {
                assert(false);
            }
            0
        };
        proof {
            assert(nib == nb);
        }
        let next: u64 = (acc << 4u64) | nib;
        proof {
            let x64 = x@;
            if i == 0 {
                assert((0u64 << 4u64) | ((x64 >> 60u64) & 0xf) == x64 >> 60u64) by (bit_vector);
                assert(nib == (x64 >> 60u64) & 0xf);
                assert(next == x64 >> (((16 - (i + 1)) * 4) as u64));
            } else {
                let sh: u64 = ((15 - i as int) * 4) as u64;
                assert(acc == x64 >> ((sh + 4) as u64));
                assert(((x64 >> ((sh + 4) as u64)) << 4u64) | ((x64 >> sh) & 0xf) == x64 >> sh)
                    by (bit_vector)
                    requires
                        sh <= 60u64,
                ;
                assert(nib == (x64 >> sh) & 0xf);
                if i == 15 {
                    assert(x64 >> 0u64 == x64) by (bit_vector);
                }
            }
        }
        acc = next;
        i += 1;
    }
    acc
}

proof fn lemma_enc_events_snoc(es: Seq<Seq<char>>, k: int)
    requires
        0 <= k < es.len(),
    ensures
        enc_events(es.take(k + 1)) == enc_events(es.take(k)) + enc_str(es[k]),
    decreases k,
{
    if k == 0 {
        assert(es.take(0) =~= Seq::<Seq<char>>::empty());
        assert(es.take(1)[0] == es[0]);
        assert(es.take(1).drop_first() =~= Seq::<Seq<char>>::empty());
        assert(enc_events(es.take(1)) =~= enc_events(es.take(0)) + enc_str(es[0]));
    } else {
        let tail = es.drop_first();
        lemma_enc_events_snoc(tail, k - 1);
        assert(es.take(k + 1).drop_first() =~= tail.take(k));
        assert(es.take(k).drop_first() =~= tail.take(k - 1));
        assert(es.take(k + 1)[0] == es[0]);
        assert(es.take(k)[0] == es[0]);
        assert(es[k] == tail[k - 1]);
        assert(enc_events(es.take(k + 1)) =~= enc_events(es.take(k)) + enc_str(es[k]));
    }
}

/// Every event's text fits inside the serialized events, and each event
/// accounts for at least its 16-digit length header.
proof fn lemma_enc_events_len(es: Seq<Seq<char>>)
    ensures
        enc_events(es).len() >= 16 * es.len(),
        forall|i: int| 0 <= i < es.len() ==> es[i].len() <= enc_events(es).len(),
    decreases es.len(),
{
    if es.len() > 0 {
        lemma_enc_events_len(es.drop_first());
        assert forall|i: int| 0 <= i < es.len() implies es[i].len() <= enc_events(es).len() by {
            if i > 0 {
                assert(es[i] == es.drop_first()[i - 1]);
            }
        }
    }
}

/// Appends the length-prefixed form of `s`.
fn enc_str_append(out: &mut String, s: &str)
    ensures
        final(out)@ == old(out)@ + enc_str(s@),
{
    let n: usize = s.unicode_len();
    let h = hex16_str(n as u64);
    out.append(h.as_str());
    out.append(s);
    proof {
        assert(out@ =~= old(out)@ + enc_str(s@));
    }
}

/// Serializes a record.
pub(crate) fn encode_record(r: &TravelExperience) -> (out: String)
    ensures
        out@ == encode_rec(r@),
{
    let mut out = String::new();
    let h1 = hex16_str(r.id);
    out.append(h1.as_str());
    let h2 = hex16_str(r.date);
    out.append(h2.as_str());
    enc_str_append(&mut out, r.destination.as_str());
    enc_str_append(&mut out, r.notes.as_str());
    let n_events: usize = r.historical_events.len();
    let h3 = hex16_str(n_events as u64);
    out.append(h3.as_str());
    let ghost prefix = out@;
    let ghost evs = r.historical_events.deep_view();
    proof {
        assert(evs.take(0) =~= Seq::<Seq<char>>::empty());
        assert(out@ =~= prefix + enc_events(evs.take(0)));
    }
    let mut k: usize = 0;
    while k < n_events
        invariant
            k <= n_events,
            n_events == r.historical_events.len(),
            evs == r.historical_events.deep_view(),
            out@ == prefix + enc_events(evs.take(k as int)),
        decreases n_events - k,
    {
        enc_str_append(&mut out, r.historical_events[k].as_str());
        proof {
            lemma_enc_events_snoc(evs, k as int);
            assert(r.historical_events@[k as int]@ == evs[k as int]);
            assert(out@ =~= prefix + enc_events(evs.take(k as int + 1)));
        }
        k += 1;
    }
    proof {
        assert(evs.take(n_events as int) =~= evs);
        assert(out@ =~= encode_rec(r@));
    }
    out
}

/// Reads a record back from its serialized form.  The store only ever decodes
/// text it has itself produced with `encode_record`, which the precondition
/// states; on such text decoding always succeeds.
pub(crate) fn decode_record(s: &str) -> (r: TravelExperience)
    requires
        exists|v: RecordView| s@ == encode_rec(v),
    ensures
        encode_rec(r@) == s@,
{
    let ghost v = choose|v: RecordView| s@ == encode_rec(v);
    let total: usize = s.unicode_len();
    let ghost dlen = v.destination.len() as int;
    let ghost nlen = v.notes.len() as int;
    let ghost evlen = enc_events(v.historical_events).len() as int;
    proof {
        lemma_enc_events_len(v.historical_events);
        assert(s@.len() == 80 + dlen + nlen + evlen);
        assert(s@.subrange(0, 16) =~= hex16(v.id));
        assert(s@.subrange(16, 32) =~= hex16(v.date));
        assert(s@.subrange(32, 48) =~= hex16(v.destination.len() as u64));
    }
    let id = parse_hex16(s, 0, Ghost(v.id));
    let date = parse_hex16(s, 16, Ghost(v.date));
    let dlen64 = parse_hex16(s, 32, Ghost(v.destination.len() as u64));
    proof {
        assert(dlen <= s@.len());
        assert(dlen64 == dlen);
    }
    let dlen_u: usize = dlen64 as usize;
    let dend: usize = 48 + dlen_u;
    let dest = s.substring_char(48, dend);
    proof {
        assert(dest@ =~= v.destination);
        assert(s@.subrange(dend as int, dend as int + 16) =~= hex16(v.notes.len() as u64));
    }
    let nlen64 = parse_hex16(s, dend, Ghost(v.notes.len() as u64));
    proof {
        assert(nlen <= s@.len());
        assert(nlen64 == nlen);
    }
    let nlen_u: usize = nlen64 as usize;
    let nstart: usize = dend + 16;
    let nend: usize = nstart + nlen_u;
    let notes = s.substring_char(nstart, nend);
    proof {
        assert(notes@ =~= v.notes);
        assert(s@.subrange(nend as int, nend as int + 16) =~= hex16(
            v.historical_events.len() as u64,
        ));
        assert(16 * v.historical_events.len() <= evlen);
    }
    let cnt64 = parse_hex16(s, nend, Ghost(v.historical_events.len() as u64));
    proof {
        assert(v.historical_events.len() <= evlen);
        assert(cnt64 == v.historical_events.len());
    }
    let cnt_u: usize = cnt64 as usize;
    let ghost evs = v.historical_events;
    let mut events: Vec<String> = Vec::new();
    let mut pos: usize = nend + 16;
    proof {
        assert(evs.skip(0) =~= evs);
        assert(s@.subrange(pos as int, total as int) =~= enc_events(evs));
        assert(events.deep_view() =~= evs.take(0));
    }
    let mut k: usize = 0;
    while k < cnt_u
        invariant
            k <= cnt_u,
            cnt_u == evs.len(),
            total == s@.len(),
            s@.len() <= usize::MAX,
            pos <= total,
            s@.subrange(pos as int, total as int) == enc_events(evs.skip(k as int)),
            events.deep_view() == evs.take(k as int),
        decreases cnt_u - k,
    {
        let ghost ev = evs[k as int];
        proof {
            assert(evs.skip(k as int)[0] == ev);
            assert(evs.skip(k as int).drop_first() =~= evs.skip(k as int + 1));
            assert(s@.subrange(pos as int, total as int) == enc_str(ev) + enc_events(
                evs.skip(k as int + 1),
            ));
            assert(total - pos == 16 + ev.len() + enc_events(evs.skip(k as int + 1)).len());
            assert(s@.subrange(pos as int, pos as int + 16) =~= hex16(ev.len() as u64));
        }
        let elen64 = parse_hex16(s, pos, Ghost(ev.len() as u64));
        proof {
            assert(ev.len() <= total - pos);
            assert(elen64 == ev.len());
        }
        let elen: usize = elen64 as usize;
        let estart: usize = pos + 16;
        let eend: usize = estart + elen;
        let etxt = s.substring_char(estart, eend);
        proof {
            let chunk = s@.subrange(pos as int, total as int);
            assert(etxt@ =~= chunk.subrange(16, 16 + ev.len() as int));
            assert(chunk.subrange(16, 16 + ev.len() as int) =~= ev);
        }
        let ghost prev_dv = events.deep_view();
        let ghost prev_vec = events@;
        proof {
            assert(prev_dv == evs.take(k as int));
            assert(events.deep_view() == Seq::new(events@.len(), |i: int| events@[i].deep_view()));
            assert(prev_dv.len() == prev_vec.len());
            assert(prev_vec.len() == k as int);
        }
        let new_s = String::from_str(etxt);
        events.push(new_s);
        proof {
            assert(events@ == prev_vec.push(new_s));
            assert forall|j: int| 0 <= j < k implies events.deep_view()[j] == prev_dv[j] by {
                assert(events@[j] == prev_vec[j]);
            }
            assert(events.deep_view()[k as int] == new_s@);
            assert(events.deep_view() =~= evs.take(k as int + 1));
            let chunk = s@.subrange(pos as int, total as int);
            assert(s@.subrange(eend as int, total as int) =~= chunk.subrange(
                16 + ev.len() as int,
                chunk.len() as int,
            ));
            assert(chunk.subrange(16 + ev.len() as int, chunk.len() as int) =~= enc_events(
                evs.skip(k as int + 1),
            ));
        }
        pos = eend;
        k += 1;
    }
    proof {
        assert(events.deep_view() =~= evs.take(cnt_u as int));
        assert(evs.take(cnt_u as int) =~= evs);
    }
    let r = TravelExperience {
        id,
        destination: String::from_str(dest),
        date,
        notes: String::from_str(notes),
        historical_events: events,
    };
    proof {
        assert(r@ == v);
    }
    r
}

/// Length bounds that hold of every view whose serialized form has a
/// representable length.
pub open spec fn view_sizes_ok(v: RecordView) -> bool {
    &&& v.destination.len() < 0x10000000000000000
    &&& v.notes.len() < 0x10000000000000000
    &&& v.historical_events.len() < 0x10000000000000000
    &&& forall|i: int|
        0 <= i < v.historical_events.len() ==> v.historical_events[i].len()
            < 0x10000000000000000
}

pub proof fn lemma_encode_len_bounds(v: RecordView)
    ensures
        encode_rec(v).len() == 80 + v.destination.len() + v.notes.len() + enc_events(
            v.historical_events,
        ).len(),
        encode_rec(v).len() < 0x10000000000000000 ==> view_sizes_ok(v),
{
    lemma_enc_events_len(v.historical_events);
}

proof fn lemma_enc_events_injective(es1: Seq<Seq<char>>, es2: Seq<Seq<char>>)
    requires
        enc_events(es1) == enc_events(es2),
        es1.len() == es2.len(),
        forall|i: int| 0 <= i < es1.len() ==> es1[i].len() < 0x10000000000000000,
        forall|i: int| 0 <= i < es2.len() ==> es2[i].len() < 0x10000000000000000,
    ensures
        es1 == es2,
    decreases es1.len(),
{
    if es1.len() == 0 {
        assert(es1 =~= es2);
    } else {
        let t = enc_events(es1);
        assert(t == enc_str(es1[0]) + enc_events(es1.drop_first()));
        assert(t == enc_str(es2[0]) + enc_events(es2.drop_first()));
        assert(t.subrange(0, 16) =~= hex16(es1[0].len() as u64));
        assert(t.subrange(0, 16) =~= hex16(es2[0].len() as u64));
        lemma_hex16_injective(es1[0].len() as u64, es2[0].len() as u64);
        let l = es1[0].len() as int;
        assert(es2[0].len() == l);
        assert(t.subrange(16, 16 + l) =~= es1[0]);
        assert(t.subrange(16, 16 + l) =~= es2[0]);
        assert(t.subrange(16 + l, t.len() as int) =~= enc_events(es1.drop_first()));
        assert(t.subrange(16 + l, t.len() as int) =~= enc_events(es2.drop_first()));
        assert forall|i: int| 0 <= i < es1.drop_first().len() implies es1.drop_first()[i].len()
            < 0x10000000000000000 by {
            assert(es1.drop_first()[i] == es1[i + 1]);
        }
        assert forall|i: int| 0 <= i < es2.drop_first().len() implies es2.drop_first()[i].len()
            < 0x10000000000000000 by {
            assert(es2.drop_first()[i] == es2[i + 1]);
        }
        lemma_enc_events_injective(es1.drop_first(), es2.drop_first());
        assert forall|i: int| 0 <= i < es1.len() implies es1[i] == es2[i] by {
            if i > 0 {
                assert(es1[i] == es1.drop_first()[i - 1]);
                assert(es2[i] == es2.drop_first()[i - 1]);
            }
        }
        assert(es1 =~= es2);
    }
}

/// Two records with the same serialized form are the same record.
pub proof fn lemma_encode_injective(v1: RecordView, v2: RecordView)
    requires
        encode_rec(v1) == encode_rec(v2),
        encode_rec(v1).len() < 0x10000000000000000,
    ensures
        v1 == v2,
{
    lemma_encode_len_bounds(v1);
    lemma_encode_len_bounds(v2);
    let t = encode_rec(v1);
    assert(t.subrange(0, 16) =~= hex16(v1.id));
    assert(t.subrange(0, 16) =~= hex16(v2.id));
    lemma_hex16_injective(v1.id, v2.id);
    assert(t.subrange(16, 32) =~= hex16(v1.date));
    assert(t.subrange(16, 32) =~= hex16(v2.date));
    lemma_hex16_injective(v1.date, v2.date);
    assert(t.subrange(32, 48) =~= hex16(v1.destination.len() as u64));
    assert(t.subrange(32, 48) =~= hex16(v2.destination.len() as u64));
    lemma_hex16_injective(v1.destination.len() as u64, v2.destination.len() as u64);
    let d = v1.destination.len() as int;
    assert(v2.destination.len() == d);
    assert(t.subrange(48, 48 + d) =~= v1.destination);
    assert(t.subrange(48, 48 + d) =~= v2.destination);
    assert(t.subrange(48 + d, 64 + d) =~= hex16(v1.notes.len() as u64));
    assert(t.subrange(48 + d, 64 + d) =~= hex16(v2.notes.len() as u64));
    lemma_hex16_injective(v1.notes.len() as u64, v2.notes.len() as u64);
    let n = v1.notes.len() as int;
    assert(v2.notes.len() == n);
    assert(t.subrange(64 + d, 64 + d + n) =~= v1.notes);
    assert(t.subrange(64 + d, 64 + d + n) =~= v2.notes);
    assert(t.subrange(64 + d + n, 80 + d + n) =~= hex16(v1.historical_events.len() as u64));
    assert(t.subrange(64 + d + n, 80 + d + n) =~= hex16(v2.historical_events.len() as u64));
    lemma_hex16_injective(v1.historical_events.len() as u64, v2.historical_events.len() as u64);
    assert(v2.historical_events.len() == v1.historical_events.len());
    assert(t.subrange(80 + d + n, t.len() as int) =~= enc_events(v1.historical_events));
    assert(t.subrange(80 + d + n, t.len() as int) =~= enc_events(v2.historical_events));
    lemma_enc_events_injective(v1.historical_events, v2.historical_events);
    assert(v1 =~= v2);
}

} // verus!
