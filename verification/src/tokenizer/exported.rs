//! What the metadata of a tokenizer say of the tokens, the added tokens and the
//! merges of its document.

use vstd::prelude::*;
use vstd::string::*;

use crate::gguf::{GgufView, GgufWriter, KvView};
use crate::json::{parsed_json, Json, JsonView};
use crate::tokenizer::{
    add_byte_bpe_tokenizer, check_tokenizer, field, id_below, is_special, lemma_token_at_id,
    lookup_from, marks_special, merge_ok, merge_text, merge_texts, merges_of, token_type,
    tokenizer_kvs, tokens_of, types_of, unk_of, vocab_of, well_formed, TokenizerError,
};

verus! {

/// The first entry with this key stands at `p`, and has the value `v`.
pub open spec fn entry_at(
    entries: Seq<(Seq<char>, JsonView)>,
    key: Seq<char>,
    v: JsonView,
    p: int,
) -> bool {
    &&& 0 <= p < entries.len()
    &&& entries[p] == (key, v)
    &&& forall|q: int| 0 <= q < p ==> (#[trigger] entries[q]).0 != key
}

/// `j` is an object with the value `v` under `key`.
pub open spec fn has_member(j: JsonView, key: Seq<char>, v: JsonView) -> bool {
    exists|p: int| j is Object && #[trigger] entry_at(j->Object_0, key, v, p)
}

/// Looking for the first entry from `i` on finds it.
proof fn lemma_lookup(
    entries: Seq<(Seq<char>, JsonView)>,
    key: Seq<char>,
    v: JsonView,
    p: int,
    i: nat,
)
    requires
        entry_at(entries, key, v, p),
        i <= p,
    ensures
        lookup_from(entries, key, i) == Some(v),
    decreases p - i,
{
    if i < p {
        assert(entries[i as int].0 != key);
        lemma_lookup(entries, key, v, p, i + 1);
    }
}

/// What is found is the first entry.
proof fn lemma_found(entries: Seq<(Seq<char>, JsonView)>, key: Seq<char>, i: nat) -> (p: int)
    requires
        lookup_from(entries, key, i) is Some,
        forall|q: int| 0 <= q < i ==> (#[trigger] entries[q]).0 != key,
    ensures
        entry_at(entries, key, lookup_from(entries, key, i)->Some_0, p),
    decreases entries.len() - i,
{
    if entries[i as int].0 == key {
        i as int
    } else {
        lemma_found(entries, key, i + 1)
    }
}

/// The value under a key is that of the first entry with the key, and null where
/// there is none.
pub proof fn lemma_field(j: JsonView, key: Seq<char>, v: JsonView)
    ensures
        has_member(j, key, v) ==> field(j, key) == v,
        v != JsonView::Null && field(j, key) == v ==> has_member(j, key, v),
{
    if has_member(j, key, v) {
        let p = choose|p: int| j is Object && #[trigger] entry_at(j->Object_0, key, v, p);
        lemma_lookup(j->Object_0, key, v, p, 0);
    }
    if v != JsonView::Null && field(j, key) == v {
        let p = lemma_found(j->Object_0, key, 0);
        assert(entry_at(j->Object_0, key, v, p));
    }
}

/// The document has this model, with this vocabulary.
pub open spec fn has_vocab(
    doc: JsonView,
    model: JsonView,
    entries: Seq<(Seq<char>, JsonView)>,
) -> bool {
    &&& has_member(doc, "model"@, model)
    &&& has_member(model, "vocab"@, JsonView::Object(entries))
}

/// Entry `i` gives the token `t` the id `id`, which no later entry gives away.
pub open spec fn token_with_id(
    entries: Seq<(Seq<char>, JsonView)>,
    i: int,
    t: Seq<char>,
    id: u64,
) -> bool {
    &&& 0 <= i < entries.len()
    &&& entries[i] == (t, JsonView::Number(Some(id)))
    &&& forall|j: int| i < j < entries.len() ==> (#[trigger] entries[j]).1 != entries[i].1
}

/// The added token `a` is special and has the text `t`.
pub open spec fn special_entry(a: JsonView, t: Seq<char>) -> bool {
    &&& has_member(a, "special"@, JsonView::Bool(true))
    &&& has_member(a, "content"@, JsonView::Text(t))
}

proof fn lemma_special_entry(a: JsonView, t: Seq<char>)
    ensures
        marks_special(a, t) == special_entry(a, t),
{
    lemma_field(a, "special"@, JsonView::Bool(true));
    lemma_field(a, "content"@, JsonView::Text(t));
}

/// A token and its type stand at its id.
proof fn lemma_token_exported(
    doc: JsonView,
    model: JsonView,
    entries: Seq<(Seq<char>, JsonView)>,
    i: int,
    t: Seq<char>,
    id: u64,
)
    requires
        well_formed(doc),
        has_vocab(doc, model, entries),
        token_with_id(entries, i, t, id),
    ensures
        id < entries.len(),
        tokens_of(doc).len() == entries.len(),
        types_of(doc).len() == entries.len(),
        tokens_of(doc)[id as int] == t,
        types_of(doc)[id as int] == token_type(doc, t),
{
    lemma_field(doc, "model"@, model);
    lemma_field(model, "vocab"@, JsonView::Object(entries));
    assert(vocab_of(doc) == JsonView::Object(entries));
    assert(id_below(entries[i].1, entries.len()));
    lemma_token_at_id(doc, i);
}

/// The metadata hold a list of the tokens, with as many places as the vocabulary
/// has entries, and each token stands at its id.
pub proof fn lemma_tokens_exported(
    doc: JsonView,
    model: JsonView,
    entries: Seq<(Seq<char>, JsonView)>,
    i: int,
    t: Seq<char>,
    id: u64,
)
    requires
        well_formed(doc),
        has_vocab(doc, model, entries),
        token_with_id(entries, i, t, id),
    ensures
        exists|tokens: Seq<Seq<char>>|
            #[trigger] tokenizer_kvs(doc).contains(
                ("tokenizer.ggml.tokens"@, KvView::ArrStr(tokens)),
            ) && tokens.len() == entries.len() && id < tokens.len() && tokens[id as int] == t,
{
    lemma_token_exported(doc, model, entries, i, t, id);
    let kvs = tokenizer_kvs(doc);
    assert(kvs[2] == ("tokenizer.ggml.tokens"@, KvView::ArrStr(tokens_of(doc))));
    assert(kvs.contains(("tokenizer.ggml.tokens"@, KvView::ArrStr(tokens_of(doc)))));
}

/// The list of types has the type `kind` at `id`, and as many places as the
/// vocabulary has entries.
pub open spec fn type_exported(doc: JsonView, n: nat, id: u64, kind: i32) -> bool {
    exists|types: Seq<i32>|
        #[trigger] tokenizer_kvs(doc).contains(
            ("tokenizer.ggml.token_type"@, KvView::ArrI32(types)),
        ) && types.len() == n && id < n && types[id as int] == kind
}

proof fn lemma_type_exported(
    doc: JsonView,
    model: JsonView,
    entries: Seq<(Seq<char>, JsonView)>,
    i: int,
    t: Seq<char>,
    id: u64,
)
    requires
        well_formed(doc),
        has_vocab(doc, model, entries),
        token_with_id(entries, i, t, id),
    ensures
        type_exported(doc, entries.len(), id, token_type(doc, t)),
{
    lemma_token_exported(doc, model, entries, i, t, id);
    let kvs = tokenizer_kvs(doc);
    assert(kvs[3] == ("tokenizer.ggml.token_type"@, KvView::ArrI32(types_of(doc))));
    assert(kvs.contains(("tokenizer.ggml.token_type"@, KvView::ArrI32(types_of(doc)))));
}

/// Every added token counts: if the entry at any place of `added_tokens` is
/// special and its content is a token other than the unknown one, the type at
/// that token's id is 3.
pub proof fn lemma_special_exported(
    doc: JsonView,
    model: JsonView,
    entries: Seq<(Seq<char>, JsonView)>,
    i: int,
    t: Seq<char>,
    id: u64,
    added: Seq<JsonView>,
    a: int,
)
    requires
        well_formed(doc),
        has_vocab(doc, model, entries),
        token_with_id(entries, i, t, id),
        t != "<unk>"@,
        has_member(doc, "added_tokens"@, JsonView::Array(added)),
        0 <= a < added.len(),
        special_entry(added[a], t),
    ensures
        type_exported(doc, entries.len(), id, 3),
{
    lemma_type_exported(doc, model, entries, i, t, id);
    lemma_field(doc, "added_tokens"@, JsonView::Array(added));
    lemma_special_entry(added[a], t);
    assert(marks_special(field(doc, "added_tokens"@)->Array_0[a], t));
    assert(is_special(doc, t));
}

/// A token other than the unknown one that no special entry names has type 1.
pub proof fn lemma_normal_exported(
    doc: JsonView,
    model: JsonView,
    entries: Seq<(Seq<char>, JsonView)>,
    i: int,
    t: Seq<char>,
    id: u64,
)
    requires
        well_formed(doc),
        has_vocab(doc, model, entries),
        token_with_id(entries, i, t, id),
        t != "<unk>"@,
        forall|added: Seq<JsonView>, a: int|
            has_member(doc, "added_tokens"@, JsonView::Array(added)) && 0 <= a < added.len()
                ==> !special_entry(#[trigger] added[a], t),
    ensures
        type_exported(doc, entries.len(), id, 1),
{
    lemma_type_exported(doc, model, entries, i, t, id);
    if is_special(doc, t) {
        let added = field(doc, "added_tokens"@)->Array_0;
        lemma_field(doc, "added_tokens"@, JsonView::Array(added));
        let a = choose|a: int| 0 <= a < added.len() && #[trigger] marks_special(added[a], t);
        lemma_special_entry(added[a], t);
    }
}

/// The unknown token has type 2, special or not, and its id is the one of the
/// unknown token, of the begin and of the end.
pub proof fn lemma_unknown_exported(
    doc: JsonView,
    model: JsonView,
    entries: Seq<(Seq<char>, JsonView)>,
    i: int,
    id: u64,
)
    requires
        well_formed(doc),
        has_vocab(doc, model, entries),
        token_with_id(entries, i, "<unk>"@, id),
        forall|q: int| 0 <= q < i ==> (#[trigger] entries[q]).0 != "<unk>"@,
        id <= u32::MAX,
    ensures
        type_exported(doc, entries.len(), id, 2),
        tokenizer_kvs(doc).contains(
            ("tokenizer.ggml.unknown_token_id"@, KvView::U32(id as u32)),
        ),
        tokenizer_kvs(doc).contains(("tokenizer.ggml.bos_token_id"@, KvView::U32(id as u32))),
        tokenizer_kvs(doc).contains(("tokenizer.ggml.eos_token_id"@, KvView::U32(id as u32))),
{
    lemma_type_exported(doc, model, entries, i, "<unk>"@, id);
    lemma_field(doc, "model"@, model);
    lemma_field(model, "vocab"@, JsonView::Object(entries));
    lemma_lookup(entries, "<unk>"@, JsonView::Number(Some(id)), i, 0);
    assert(unk_of(doc) == id);
    let kvs = tokenizer_kvs(doc);
    let u = KvView::U32(id as u32);
    assert(kvs[5] == ("tokenizer.ggml.unknown_token_id"@, u));
    assert(kvs[6] == ("tokenizer.ggml.bos_token_id"@, u));
    assert(kvs[7] == ("tokenizer.ggml.eos_token_id"@, u));
}

/// The metadata hold the merges in the order of the document: a text as it is, a
/// pair as its two texts with a space between them.
pub proof fn lemma_merges_exported(
    doc: JsonView,
    model: JsonView,
    merges: Seq<JsonView>,
    k: int,
)
    requires
        well_formed(doc),
        has_member(doc, "model"@, model),
        has_member(model, "merges"@, JsonView::Array(merges)),
        0 <= k < merges.len(),
    ensures
        exists|out: Seq<Seq<char>>|
            #[trigger] tokenizer_kvs(doc).contains(
                ("tokenizer.ggml.merges"@, KvView::ArrStr(out)),
            ) && out.len() == merges.len() && match merges[k] {
                JsonView::Text(s) => out[k] == s,
                JsonView::Array(pair) => pair.len() >= 2 && exists|a: Seq<char>, b: Seq<char>|
                    pair[0] == JsonView::Text(a) && pair[1] == JsonView::Text(b) && out[k]
                        == #[trigger] (a + seq![' '] + b),
                _ => false,
            },
{
    lemma_field(doc, "model"@, model);
    lemma_field(model, "merges"@, JsonView::Array(merges));
    assert(merges_of(doc) == JsonView::Array(merges));
    assert(merge_ok(merges_of(doc)->Array_0[k]));
    let kvs = tokenizer_kvs(doc);
    let out = merge_texts(doc);
    assert(kvs[4] == ("tokenizer.ggml.merges"@, KvView::ArrStr(out)));
    assert(kvs.contains(("tokenizer.ggml.merges"@, KvView::ArrStr(out))));
    assert(out[k] == merge_text(merges[k]));
    if let JsonView::Array(pair) = merges[k] {
        reveal_strlit(" ");
        assert(" "@ =~= seq![' ']);
        let (a, b) = (pair[0]->Text_0, pair[1]->Text_0);
        assert(pair[0] == JsonView::Text(a) && pair[1] == JsonView::Text(b) && out[k] == a
            + seq![' '] + b);
    }
}

/// The metadata name the kind of the tokenizer, and say that no begin token is
/// added. There are nine in all.
pub proof fn lemma_kind_exported(doc: JsonView)
    ensures
        tokenizer_kvs(doc).len() == 9,
        tokenizer_kvs(doc).contains(("tokenizer.ggml.model"@, KvView::Str("gpt2"@))),
        tokenizer_kvs(doc).contains(("tokenizer.ggml.pre"@, KvView::Str("default"@))),
        tokenizer_kvs(doc).contains(("tokenizer.ggml.add_bos_token"@, KvView::Bool(false))),
{
    let kvs = tokenizer_kvs(doc);
    assert(kvs[0] == ("tokenizer.ggml.model"@, KvView::Str("gpt2"@)));
    assert(kvs[1] == ("tokenizer.ggml.pre"@, KvView::Str("default"@)));
    assert(kvs[8] == ("tokenizer.ggml.add_bos_token"@, KvView::Bool(false)));
}

/// What a document must have: a model with a vocabulary, in which every token has
/// an id below the number of entries and the unknown token is one of them, and
/// with merges, each a text or an array that starts with two texts.
pub open spec fn describes(
    doc: JsonView,
    model: JsonView,
    entries: Seq<(Seq<char>, JsonView)>,
    unk: int,
    merges: Seq<JsonView>,
) -> bool {
    &&& has_vocab(doc, model, entries)
    &&& has_member(model, "merges"@, JsonView::Array(merges))
    &&& forall|i: int|
        0 <= i < entries.len() ==> (#[trigger] entries[i]).1 is Number && entries[i].1->Number_0
            is Some && entries[i].1->Number_0->Some_0 < entries.len()
    &&& 0 <= unk < entries.len()
    &&& entries[unk].0 == "<unk>"@
    &&& forall|k: int|
        0 <= k < merges.len() ==> match #[trigger] merges[k] {
            JsonView::Text(_) => true,
            JsonView::Array(pair) => pair.len() >= 2 && pair[0] is Text && pair[1] is Text,
            _ => false,
        }
}

/// The document has it.
pub open spec fn describes_one(doc: JsonView) -> bool {
    exists|
        model: JsonView,
        entries: Seq<(Seq<char>, JsonView)>,
        unk: int,
        merges: Seq<JsonView>,
    | #[trigger] describes(doc, model, entries, unk, merges)
}

/// Exactly the documents that have it are accepted.
pub proof fn lemma_accepted(doc: &Json, r: bool)
    requires
        call_ensures(check_tokenizer, (doc,), r),
    ensures
        r <==> describes_one(doc@),
{
    lemma_well_formed(doc@);
}

/// Bytes that hold such a document give their tokenizer's metadata to the writer,
/// behind what it has. Other bytes are refused, and leave it as it was.
pub proof fn lemma_tokenizer_added(bytes: &[u8])
    ensures
        forall|w: &mut GgufWriter, res: Result<(), TokenizerError>| #[trigger]
            call_ensures(add_byte_bpe_tokenizer, (w, bytes), res) ==> tokenizer_added(
                parsed_json(bytes@),
                w@,
                final(w)@,
                res is Ok,
            ),
{
    if let Some(doc) = parsed_json(bytes@) {
        lemma_well_formed(doc);
    }
}

/// The metadata of the document stand behind those of `a`, or `a` is left.
pub open spec fn tokenizer_added(
    parsed: Option<JsonView>,
    a: GgufView,
    b: GgufView,
    taken: bool,
) -> bool {
    match parsed {
        Some(doc) => {
            &&& taken == describes_one(doc)
            &&& b.tensors == a.tensors
            &&& b.kvs == if taken {
                a.kvs + tokenizer_kvs(doc)
            } else {
                a.kvs
            }
        },
        None => !taken && b == a,
    }
}

proof fn lemma_well_formed(d: JsonView)
    ensures
        well_formed(d) <==> describes_one(d),
{
    if well_formed(d) {
        let model = field(d, "model"@);
        let entries = vocab_of(d)->Object_0;
        let merges = merges_of(d)->Array_0;
        assert(model != JsonView::Null);
        lemma_field(d, "model"@, model);
        lemma_field(model, "vocab"@, JsonView::Object(entries));
        lemma_field(model, "merges"@, JsonView::Array(merges));
        let unk = lemma_found(entries, "<unk>"@, 0);
        assert forall|i: int| 0 <= i < entries.len() implies (#[trigger] entries[i]).1 is Number
            && entries[i].1->Number_0 is Some && entries[i].1->Number_0->Some_0
            < entries.len() by {
            assert(id_below(entries[i].1, entries.len()));
        }
        assert forall|k: int| 0 <= k < merges.len() implies match #[trigger] merges[k] {
            JsonView::Text(_) => true,
            JsonView::Array(pair) => pair.len() >= 2 && pair[0] is Text && pair[1] is Text,
            _ => false,
        } by {
            assert(merge_ok(merges[k]));
        }
        assert(describes(d, model, entries, unk, merges));
    }
    if describes_one(d) {
        let (model, entries, unk, merges) = choose|
            model: JsonView,
            entries: Seq<(Seq<char>, JsonView)>,
            unk: int,
            merges: Seq<JsonView>,
        | #[trigger] describes(d, model, entries, unk, merges);
        lemma_field(d, "model"@, model);
        lemma_field(model, "vocab"@, JsonView::Object(entries));
        lemma_field(model, "merges"@, JsonView::Array(merges));
        lemma_some_first(entries, "<unk>"@, unk, 0);
        let p = lemma_found(entries, "<unk>"@, 0);
        assert(entries[p].1 is Number);
        assert forall|i: int| 0 <= i < entries.len() implies id_below(
            (#[trigger] entries[i]).1,
            entries.len(),
        ) by {}
        assert forall|k: int| 0 <= k < merges.len() implies merge_ok(#[trigger] merges[k]) by {}
        assert(well_formed(d));
    }
}

/// Where an entry has the key, one is found.
proof fn lemma_some_first(entries: Seq<(Seq<char>, JsonView)>, key: Seq<char>, p: int, i: nat)
    requires
        i <= p < entries.len(),
        entries[p].0 == key,
    ensures
        lookup_from(entries, key, i) is Some,
    decreases p - i,
{
    if i < p && entries[i as int].0 != key {
        lemma_some_first(entries, key, p, i + 1);
    }
}

} // verus!
