//! The persistence format: one line `key|payload` per entry, where the payload
//! is the base64 text of the value's compact JSON.
use crate::external::{
    base64_bytes, base64_decoded, base64_of, base64_text, is_base64_char, json_of, json_parsed, json_text, parse_json,
    push_char,
};
use crate::store::{holds_key, keys_distinct, lemma_map_of_index, map_of, KVStore};
use vstd::prelude::*;
use vstd::slice::slice_subrange;
use vstd::string::StringExecFns;
use vstd::utf8::encode_utf8;

verus! {

/// Why a text could not be turned into entries, or entries into text.
#[derive(PartialEq, Eq, Structural, Debug, Clone, Copy)]
pub enum CodecError {
    /// A line's payload is not base64, or its bytes are not a JSON document.
    CorruptData,
    /// serde_json refused to write a value.
    Unserializable,
}

/// The payload written for a value.
pub open spec fn payload_of(v: serde_json::Value) -> Seq<char> {
    base64_of(encode_utf8(json_of(v)))
}

/// The line written for one entry.
pub open spec fn line_text(k: Seq<char>, v: serde_json::Value) -> Seq<char> {
    k + seq!['|'] + payload_of(v) + seq!['\n']
}

/// The text written for a listing of entries, one line each, in order.
pub open spec fn encoded(s: Seq<(Seq<char>, serde_json::Value)>) -> Seq<char>
    decreases s.len(),
{
    if s.len() == 0 {
        Seq::empty()
    } else {
        encoded(s.drop_last()) + line_text(s.last().0, s.last().1)
    }
}

/// Index of the first `|` at or after `from`, or the line's length.
pub open spec fn bar_from(line: Seq<char>, from: int) -> int
    decreases line.len() - from,
{
    if from < 0 || from >= line.len() {
        line.len() as int
    } else if line[from] == '|' {
        from
    } else {
        bar_from(line, from + 1)
    }
}

/// A payload with one double quote at each end loses both.
pub open spec fn unquoted(raw: Seq<char>) -> Seq<char> {
    if raw.len() >= 2 && raw[0] == '"' && raw[raw.len() - 1] == '"' {
        raw.subrange(1, raw.len() - 1)
    } else {
        raw
    }
}

/// What one line holds: `Ok(None)` where its key or payload is empty, the entry
/// where the payload decodes, `CorruptData` where it does not.
pub open spec fn line_record(line: Seq<char>) -> Result<
    Option<(Seq<char>, serde_json::Value)>,
    CodecError,
> {
    let b = bar_from(line, 0);
    if b == 0 || b + 1 >= line.len() {
        Ok(None)
    } else {
        match base64_decoded(unquoted(line.subrange(b + 1, line.len() as int))) {
            None => Err(CodecError::CorruptData),
            Some(bytes) => match json_parsed(bytes) {
                None => Err(CodecError::CorruptData),
                Some(v) => Ok(Some((line.subrange(0, b), v))),
            },
        }
    }
}

/// Index of the first line feed at or after `from`, or the text's length.
pub open spec fn line_end(t: Seq<char>, from: int) -> int
    decreases t.len() - from,
{
    if from < 0 || from >= t.len() {
        t.len() as int
    } else if t[from] == '\n' {
        from
    } else {
        line_end(t, from + 1)
    }
}

proof fn lemma_line_end_bounds(t: Seq<char>, from: int)
    requires
        0 <= from <= t.len(),
    ensures
        from <= line_end(t, from) <= t.len(),
    decreases t.len() - from,
{
    if from < t.len() && t[from] != '\n' {
        lemma_line_end_bounds(t, from + 1);
    }
}

/// The line that starts at `start`, without its line feed, and without a
/// carriage return right before that line feed.
pub open spec fn line_at(t: Seq<char>, start: int) -> Seq<char> {
    let e = line_end(t, start);
    if e < t.len() && e > start && t[e - 1] == '\r' {
        t.subrange(start, e - 1)
    } else {
        t.subrange(start, e)
    }
}

/// The map read from the lines of `t` that start at `start` or later, on top
/// of `m`: each entry line puts its key in place, a later one replacing an
/// earlier one, and the first corrupt line fails the whole text.
pub open spec fn decoded_from(t: Seq<char>, start: int, m: Map<Seq<char>, serde_json::Value>) -> Result<
    Map<Seq<char>, serde_json::Value>,
    CodecError,
>
    decreases t.len() + 1 - start,
{
    if start < 0 || start >= t.len() {
        Ok(m)
    } else {
        let next = line_end(t, start) + 1;
        if next <= start || next > t.len() + 1 {
            Ok(m)
        } else {
            match line_record(line_at(t, start)) {
                Err(e) => Err(e),
                Ok(None) => decoded_from(t, next, m),
                Ok(Some(kv)) => decoded_from(t, next, m.insert(kv.0, kv.1)),
            }
        }
    }
}

/// The map that a whole persisted text stands for.
pub open spec fn decoded(t: Seq<char>) -> Result<Map<Seq<char>, serde_json::Value>, CodecError> {
    decoded_from(t, 0, Map::empty())
}

proof fn lemma_bar_after_key(line: Seq<char>, klen: int, i: int)
    requires
        0 <= i <= klen < line.len(),
        line[klen] == '|',
        forall|j: int| 0 <= j < klen ==> line[j] != '|',
    ensures
        bar_from(line, i) == klen,
    decreases klen - i,
{
    if i < klen {
        lemma_bar_after_key(line, klen, i + 1);
    }
}

/// One entry's line, read back: a non-empty key without `|`, followed by the
/// payload written for `v`, reads as that very entry, wherever the payload
/// does not start with a double quote and base64 and serde_json read back
/// what they wrote.
pub proof fn lemma_line_round_trip(k: Seq<char>, v: serde_json::Value)
    requires
        k.len() > 0,
        forall|j: int| 0 <= j < k.len() ==> k[j] != '|',
        payload_of(v).len() > 0,
        payload_of(v)[0] != '"',
        base64_decoded(payload_of(v)) == Some(encode_utf8(json_of(v))),
        json_parsed(encode_utf8(json_of(v))) == Some(v),
    ensures
        line_record(k + seq!['|'] + payload_of(v)) == Ok::<
            Option<(Seq<char>, serde_json::Value)>,
            CodecError,
        >(Some((k, v))),
{
    let line = k + seq!['|'] + payload_of(v);
    lemma_bar_after_key(line, k.len() as int, 0);
    assert(line.subrange(k.len() as int + 1, line.len() as int) =~= payload_of(v));
    assert(line.subrange(0, k.len() as int) =~= k);
}

proof fn lemma_line_end_spec(t: Seq<char>, s: int)
    requires
        0 <= s <= t.len(),
    ensures
        s <= line_end(t, s) <= t.len(),
        forall|i: int| s <= i < line_end(t, s) ==> t[i] != '\n',
        line_end(t, s) < t.len() ==> t[line_end(t, s)] == '\n',
    decreases t.len() - s,
{
    if s < t.len() && t[s] != '\n' {
        lemma_line_end_spec(t, s + 1);
    }
}

proof fn lemma_line_end_at(t: Seq<char>, s: int, e: int)
    requires
        0 <= s <= e <= t.len(),
        e < t.len() ==> t[e] == '\n',
        forall|i: int| s <= i < e ==> t[i] != '\n',
    ensures
        line_end(t, s) == e,
    decreases e - s,
{
    if s < e {
        lemma_line_end_at(t, s + 1, e);
    }
}

/// Decoding the part of `a + b` that lies in `b` is decoding `b`.
proof fn lemma_decoded_shift(
    a: Seq<char>,
    b: Seq<char>,
    s: int,
    m: Map<Seq<char>, serde_json::Value>,
)
    requires
        0 <= s <= b.len(),
    ensures
        decoded_from(a + b, a.len() + s, m) == decoded_from(b, s, m),
    decreases b.len() - s,
{
    let t = a + b;
    if s < b.len() {
        let o = a.len() as int;
        lemma_line_end_spec(b, s);
        let e = line_end(b, s);
        assert forall|i: int| o + s <= i < o + e implies t[i] != '\n' by {
            assert(t[i] == b[i - o]);
        }
        if e < b.len() {
            assert(t[o + e] == b[e]);
        }
        lemma_line_end_at(t, o + s, o + e);
        if e > s {
            assert(t[o + e - 1] == b[e - 1]);
        }
        assert(t.subrange(o + s, o + e) =~= b.subrange(s, e));
        if e > s {
            assert(t.subrange(o + s, o + e - 1) =~= b.subrange(s, e - 1));
        }
        assert(line_at(t, o + s) == line_at(b, s));
        let m2 = match line_record(line_at(b, s)) {
            Ok(Some(kv)) => m.insert(kv.0, kv.1),
            _ => m,
        };
        if e < b.len() {
            lemma_decoded_shift(a, b, e + 1, m2);
        } else {
            assert(decoded_from(t, o + e + 1, m2) == Ok::<
                Map<Seq<char>, serde_json::Value>,
                CodecError,
            >(m2));
            assert(decoded_from(b, e + 1, m2) == Ok::<
                Map<Seq<char>, serde_json::Value>,
                CodecError,
            >(m2));
        }
    }
}

/// Whole lines at the front of a text are decoded first, and the rest then
/// goes on from the map they gave.
proof fn lemma_decoded_prefix(
    a: Seq<char>,
    b: Seq<char>,
    s: int,
    m: Map<Seq<char>, serde_json::Value>,
)
    requires
        0 <= s <= a.len(),
        a.len() > 0 ==> a[a.len() - 1] == '\n',
    ensures
        decoded_from(a + b, s, m) == match decoded_from(a, s, m) {
            Err(e) => Err(e),
            Ok(m2) => decoded_from(b, 0, m2),
        },
    decreases a.len() - s,
{
    let t = a + b;
    if s == a.len() {
        lemma_decoded_shift(a, b, 0, m);
    } else {
        lemma_line_end_spec(a, s);
        let e = line_end(a, s);
        assert(e < a.len());
        assert forall|i: int| s <= i < e implies t[i] != '\n' by {
            assert(t[i] == a[i]);
        }
        assert(t[e] == a[e]);
        lemma_line_end_at(t, s, e);
        if e > s {
            assert(t[e - 1] == a[e - 1]);
        }
        assert(t.subrange(s, e) =~= a.subrange(s, e));
        if e > s {
            assert(t.subrange(s, e - 1) =~= a.subrange(s, e - 1));
        }
        assert(line_at(t, s) == line_at(a, s));
        let m2 = match line_record(line_at(a, s)) {
            Ok(Some(kv)) => m.insert(kv.0, kv.1),
            _ => m,
        };
        lemma_decoded_prefix(a, b, e + 1, m2);
    }
}

/// A corrupt line fails the whole text, wherever it stands: `a` is the whole
/// lines before it, `b` whatever follows its line feed.
pub proof fn lemma_corrupt_line_fails(a: Seq<char>, line: Seq<char>, b: Seq<char>)
    requires
        a.len() > 0 ==> a[a.len() - 1] == '\n',
        forall|i: int| 0 <= i < line.len() ==> line[i] != '\n',
        line.len() > 0 ==> line[line.len() - 1] != '\r',
        line_record(line) is Err,
    ensures
        decoded(a + (line + seq!['\n'] + b)) is Err,
{
    let c = line + seq!['\n'] + b;
    lemma_decoded_prefix(a, c, 0, Map::empty());
    lemma_line_end_spec(a, 0);
    assert forall|i: int| 0 <= i < line.len() implies c[i] != '\n' by {
        assert(c[i] == line[i]);
    }
    assert(c[line.len() as int] == '\n');
    lemma_line_end_at(c, 0, line.len() as int);
    if line.len() > 0 {
        assert(c[line.len() - 1] == line[line.len() - 1]);
    }
    assert(c.subrange(0, line.len() as int) =~= line);
    assert(line_at(c, 0) == line);
    match decoded_from(a, 0, Map::empty()) {
        Err(_) => {},
        Ok(m2) => {
            assert(decoded_from(c, 0, m2) is Err);
        },
    }
}

/// What an entry needs to come back from its line: a non-empty key without
/// `|` or line feed, a non-empty payload over the base64 alphabet (as `encode`
/// writes it), and base64 and serde_json reading back what they wrote.
pub open spec fn entry_reads_back(k: Seq<char>, v: serde_json::Value) -> bool {
    &&& k.len() > 0
    &&& forall|i: int| 0 <= i < k.len() ==> k[i] != '|' && k[i] != '\n'
    &&& payload_of(v).len() > 0
    &&& forall|c: int| 0 <= c < payload_of(v).len() ==> is_base64_char(#[trigger] payload_of(v)[c])
    &&& base64_decoded(payload_of(v)) == Some(encode_utf8(json_of(v)))
    &&& json_parsed(encode_utf8(json_of(v))) == Some(v)
}

/// The map got by putting each entry in place, in listing order.
pub open spec fn inserted_in_order(s: Seq<(Seq<char>, serde_json::Value)>) -> Map<
    Seq<char>,
    serde_json::Value,
>
    decreases s.len(),
{
    if s.len() == 0 {
        Map::empty()
    } else {
        inserted_in_order(s.drop_last()).insert(s.last().0, s.last().1)
    }
}

proof fn lemma_decode_encoded(s: Seq<(Seq<char>, serde_json::Value)>)
    requires
        forall|i: int| 0 <= i < s.len() ==> entry_reads_back((#[trigger] s[i]).0, s[i].1),
    ensures
        decoded(encoded(s)) == Ok::<Map<Seq<char>, serde_json::Value>, CodecError>(
            inserted_in_order(s),
        ),
        encoded(s).len() > 0 ==> encoded(s)[encoded(s).len() - 1] == '\n',
    decreases s.len(),
{
    if s.len() > 0 {
        let t = s.drop_last();
        assert forall|i: int| 0 <= i < t.len() implies entry_reads_back((#[trigger] t[i]).0, t[i].1) by {
            assert(t[i] == s[i]);
        }
        lemma_decode_encoded(t);
        let k = s.last().0;
        let v = s.last().1;
        assert(entry_reads_back(s[s.len() - 1].0, s[s.len() - 1].1));
        let a = encoded(t);
        let line = k + seq!['|'] + payload_of(v);
        let b = line_text(k, v);
        assert(b =~= line + seq!['\n']);
        assert(encoded(s) == a + b);
        lemma_decoded_prefix(a, b, 0, Map::empty());
        let m2 = inserted_in_order(t);
        let p = payload_of(v);
        assert forall|i: int| 0 <= i < line.len() implies b[i] != '\n' by {
            assert(b[i] == line[i]);
            if i > k.len() {
                assert(line[i] == p[i - k.len() - 1]);
                assert(is_base64_char(p[i - k.len() - 1]));
            }
        }
        lemma_line_end_at(b, 0, line.len() as int);
        assert(b[line.len() - 1] == p[p.len() - 1]);
        assert(is_base64_char(p[p.len() - 1]));
        assert(b.subrange(0, line.len() as int) =~= line);
        assert(line_at(b, 0) == line);
        assert(is_base64_char(p[0]));
        lemma_line_round_trip(k, v);
        assert(decoded_from(b, b.len() as int, m2.insert(k, v)) == Ok::<
            Map<Seq<char>, serde_json::Value>,
            CodecError,
        >(m2.insert(k, v)));
        assert((a + b)[(a + b).len() - 1] == b[b.len() - 1]);
    }
}

proof fn lemma_inserted_is_map_of(s: Seq<(Seq<char>, serde_json::Value)>)
    requires
        keys_distinct(s),
    ensures
        inserted_in_order(s) == map_of(s),
    decreases s.len(),
{
    if s.len() > 0 {
        let t = s.drop_last();
        let n = s.len() - 1;
        assert(keys_distinct(t)) by {
            assert forall|i: int, j: int|
                0 <= i < t.len() && 0 <= j < t.len() && i != j implies (#[trigger] t[i]).0 != (
            #[trigger] t[j]).0 by {
                assert(t[i] == s[i] && t[j] == s[j]);
            }
        }
        lemma_inserted_is_map_of(t);
        let k = s[n].0;
        assert forall|q: Seq<char>| #[trigger] map_of(s).contains_key(q) == map_of(t).insert(
            k,
            s[n].1,
        ).contains_key(q) by {
            if holds_key(s, q) && q != k {
                let j = choose|j: int| 0 <= j < s.len() && (#[trigger] s[j]).0 == q;
                assert(j != n);
                assert(t[j] == s[j]);
                assert(holds_key(t, q));
            }
            if holds_key(t, q) {
                let j = choose|j: int| 0 <= j < t.len() && (#[trigger] t[j]).0 == q;
                assert(t[j] == s[j]);
                assert(holds_key(s, q));
            }
            if q == k {
                assert(holds_key(s, q));
            }
        }
        assert forall|q: Seq<char>| #[trigger] map_of(s).contains_key(q) implies map_of(s)[q]
            == map_of(t).insert(k, s[n].1)[q] by {
            let j = choose|j: int| 0 <= j < s.len() && (#[trigger] s[j]).0 == q;
            lemma_map_of_index(s, j);
            if j != n {
                assert(t[j] == s[j]);
                lemma_map_of_index(t, j);
            }
        }
        assert(map_of(s) =~= map_of(t).insert(k, s[n].1));
    }
}

/// Reading back what `encode` wrote for a store gives the store's map again,
/// wherever every entry reads back from its own line.
pub proof fn lemma_round_trip(store: &KVStore)
    requires
        store.wf(),
        forall|i: int|
            0 <= i < store.listing().len() ==> entry_reads_back(
                (#[trigger] store.listing()[i]).0,
                store.listing()[i].1,
            ),
    ensures
        decoded(encoded(store.listing())) == Ok::<Map<Seq<char>, serde_json::Value>, CodecError>(
            store@,
        ),
{
    lemma_decode_encoded(store.listing());
    lemma_inserted_is_map_of(store.listing());
}

/// A line `k|p` whose payload is not base64, or whose bytes are not a JSON
/// document, fails the whole text wherever it stands: `a` is the whole lines
/// before it, `b` whatever follows its line feed.
pub proof fn lemma_undecodable_payload_fails(
    a: Seq<char>,
    k: Seq<char>,
    p: Seq<char>,
    b: Seq<char>,
)
    requires
        a.len() > 0 ==> a[a.len() - 1] == '\n',
        k.len() > 0,
        forall|i: int| 0 <= i < k.len() ==> k[i] != '|' && k[i] != '\n',
        p.len() > 0,
        forall|i: int| 0 <= i < p.len() ==> p[i] != '\n',
        p[p.len() - 1] != '\r',
        match base64_decoded(unquoted(p)) {
            None => true,
            Some(bytes) => json_parsed(bytes) is None,
        },
    ensures
        decoded(a + (k + seq!['|'] + p + seq!['\n'] + b)) is Err,
{
    let line = k + seq!['|'] + p;
    lemma_bar_after_key(line, k.len() as int, 0);
    assert(line.subrange(k.len() as int + 1, line.len() as int) =~= p);
    assert(line_record(line) is Err);
    assert forall|i: int| 0 <= i < line.len() implies line[i] != '\n' by {
        if i > k.len() {
            assert(line[i] == p[i - k.len() - 1]);
        }
    }
    assert(line[line.len() - 1] == p[p.len() - 1]);
    lemma_corrupt_line_fails(a, line, b);
    assert(line + seq!['\n'] + b =~= k + seq!['|'] + p + seq!['\n'] + b);
}

/// Decodes one line (without its line ending).
pub fn read_line(line: &[char]) -> (r: Result<Option<(String, serde_json::Value)>, CodecError>)
    ensures
        r is Err <==> line_record(line@) is Err,
        r is Err ==> r->Err_0 == CodecError::CorruptData,
        r is Ok ==> match r->Ok_0 {
            None => line_record(line@) == Ok::<
                Option<(Seq<char>, serde_json::Value)>,
                CodecError,
            >(None),
            Some(e) => line_record(line@) == Ok::<
                Option<(Seq<char>, serde_json::Value)>,
                CodecError,
            >(Some((e.0@, e.1))),
        },
{
    let n = line.len();
    let mut b: usize = 0;
    while b < n && line[b] != '|'
        invariant
            b <= n == line@.len(),
            bar_from(line@, 0) == bar_from(line@, b as int),
        decreases n - b,
    {
        b = b + 1;
    }
    if b == 0 || n - b <= 1 {
        return Ok(None);
    }
    let mut lo: usize = b + 1;
    let mut hi: usize = n;
    if hi - lo >= 2 && line[lo] == '"' && line[hi - 1] == '"' {
        lo = lo + 1;
        hi = hi - 1;
    }
    assert(line@.subrange(lo as int, hi as int) =~= unquoted(line@.subrange(b + 1, n as int)));
    let bytes = match base64_bytes(slice_subrange(line, lo, hi)) {
        Some(x) => x,
        None => {
            return Err(CodecError::CorruptData);
        },
    };
    let value = match parse_json(bytes.as_slice()) {
        Some(v) => v,
        None => {
            return Err(CodecError::CorruptData);
        },
    };
    let mut key = String::new();
    let mut i: usize = 0;
    while i < b
        invariant
            i <= b < n == line@.len(),
            key@ == line@.subrange(0, i as int),
        decreases b - i,
    {
        push_char(&mut key, line[i]);
        i = i + 1;
        assert(key@ =~= line@.subrange(0, i as int));
    }
    Ok(Some((key, value)))
}

/// Reads a whole persisted text: each line in turn, a later line for a key
/// replacing an earlier one. Lines end at `\n`, and a `\r` right before it is
/// dropped. One corrupt line fails the whole text.
pub fn decode(text: &[char]) -> (r: Result<KVStore, CodecError>)
    ensures
        r is Ok <==> decoded(text@) is Ok,
        r is Ok ==> r->Ok_0.wf() && r->Ok_0@ == decoded(text@)->Ok_0,
        r is Err ==> r->Err_0 == CodecError::CorruptData,
{
    let n = text.len();
    let mut store = KVStore::new();
    let mut start: usize = 0;
    while start < n
        invariant
            store.wf(),
            n == text@.len(),
            start <= n,
            decoded(text@) == decoded_from(text@, start as int, store@),
        decreases n - start,
    {
        let mut end: usize = start;
        while end < n && text[end] != '\n'
            invariant
                start <= end <= n,
                n == text@.len(),
                line_end(text@, start as int) == line_end(text@, end as int),
            decreases n - end,
        {
            end = end + 1;
        }
        let mut hi: usize = end;
        if end < n && hi > start && text[hi - 1] == '\r' {
            hi = hi - 1;
        }
        let ghost m0 = store@;
        assert(line_end(text@, start as int) == end);
        proof {
            lemma_line_end_bounds(text@, start as int);
        }
        assert(text@.subrange(start as int, hi as int) == line_at(text@, start as int));
        match read_line(slice_subrange(text, start, hi)) {
            Err(e) => {
                return Err(e);
            },
            Ok(None) => {},
            Ok(Some((k, v))) => {
                store.insert(k, v);
            },
        }
        proof {
            assert(decoded_from(text@, start as int, m0) == decoded_from(
                text@,
                end + 1,
                store@,
            ));
            if end == n {
                assert(decoded_from(text@, n as int, store@) == decoded_from(
                    text@,
                    n + 1,
                    store@,
                ));
            }
        }
        start = if end < n {
            end + 1
        } else {
            n
        };
    }
    Ok(store)
}

/// Writes every entry of the store, in listing order, one line each.
/// No `|` in a payload is escaped: base64 text never holds one.
/// `Unserializable` where serde_json refuses a value.
pub fn encode(store: &KVStore) -> (r: Result<String, CodecError>)
    ensures
        r is Ok,
        r is Ok ==> r->Ok_0@ == encoded(store.listing()),
        forall|j: int, c: int|
            0 <= j < store.listing().len() && 0 <= c < payload_of(store.listing()[j].1).len()
                ==> is_base64_char(#[trigger] payload_of(#[trigger] store.listing()[j].1)[c]),
{
    let n = store.len();
    let mut out = String::new();
    let mut i: usize = 0;
    proof {
        reveal_strlit("|");
        reveal_strlit("\n");
    }
    while i < n
        invariant
            i <= n == store.listing().len(),
            out@ == encoded(store.listing().subrange(0, i as int)),
            forall|j: int, c: int|
                0 <= j < i && 0 <= c < payload_of(store.listing()[j].1).len() ==> is_base64_char(
                    #[trigger] payload_of(#[trigger] store.listing()[j].1)[c],
                ),
        decreases n - i,
    {
        let (key, value) = store.entry(i);
        let json = match json_text(value) {
            Some(j) => j,
            None => {
                return Err(CodecError::Unserializable);
            },
        };
        let payload = base64_text(json.as_str().as_bytes());
        let ghost before = out@;
        proof {
            reveal_strlit("|");
            reveal_strlit("\n");
            assert("|"@ =~= seq!['|']);
            assert("\n"@ =~= seq!['\n']);
            assert(payload@ == payload_of(*value));
        }
        out.append(key.as_str());
        out.append("|");
        out.append(payload.as_str());
        out.append("\n");
        proof {
            let s = store.listing().subrange(0, i + 1);
            assert(s.drop_last() =~= store.listing().subrange(0, i as int));
            assert(out@ =~= before + line_text(key@, *value));
        }
        i = i + 1;
    }
    assert(store.listing().subrange(0, n as int) =~= store.listing());
    Ok(out)
}

} // verus!
