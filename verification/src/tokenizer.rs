//! Byte-level BPE tokenizer documents as GGUF metadata.

use vstd::prelude::*;
use vstd::string::*;

use crate::gguf::{texts, GgufWriter, KvView};
use crate::json::{
    entries_view, items_view, lemma_array_view, lemma_object_view, parse_json, parsed_json, Json,
    JsonView,
};

pub mod exported;

verus! {

/// The value under `key` among the entries from `i` on, the first one if there
/// are several.
pub open spec fn lookup_from(
    entries: Seq<(Seq<char>, JsonView)>,
    key: Seq<char>,
    i: nat,
) -> Option<JsonView>
    decreases entries.len() - i,
{
    if i >= entries.len() {
        None
    } else if entries[i as int].0 == key {
        Some(entries[i as int].1)
    } else {
        lookup_from(entries, key, i + 1)
    }
}

/// The value under `key` of an object; null where there is none.
pub open spec fn field(j: JsonView, key: Seq<char>) -> JsonView {
    match j {
        JsonView::Object(entries) => match lookup_from(entries, key, 0) {
            Some(v) => v,
            None => JsonView::Null,
        },
        _ => JsonView::Null,
    }
}

/// The vocabulary: an object from tokens to ids.
pub open spec fn vocab_of(doc: JsonView) -> JsonView {
    field(field(doc, "model"@), "vocab"@)
}

/// The merges.
pub open spec fn merges_of(doc: JsonView) -> JsonView {
    field(field(doc, "model"@), "merges"@)
}

/// `v` is a natural number below `n`.
pub open spec fn id_below(v: JsonView, n: nat) -> bool {
    v matches JsonView::Number(Some(id)) && id < n
}

/// A merge is a text, or an array that starts with two texts.
pub open spec fn merge_ok(m: JsonView) -> bool {
    match m {
        JsonView::Array(pair) => pair.len() >= 2 && pair[0] is Text && pair[1] is Text,
        JsonView::Text(_) => true,
        _ => false,
    }
}

/// The document describes a byte-level BPE tokenizer: every token has an id
/// below the size of the vocabulary, every merge can be read, and there is an
/// unknown token.
pub open spec fn well_formed(doc: JsonView) -> bool {
    &&& vocab_of(doc) matches JsonView::Object(entries)
    &&& forall|i: int|
        0 <= i < entries.len() ==> id_below((#[trigger] entries[i]).1, entries.len())
    &&& lookup_from(entries, "<unk>"@, 0) matches Some(JsonView::Number(Some(_)))
    &&& merges_of(doc) matches JsonView::Array(ms)
    &&& forall|i: int| 0 <= i < ms.len() ==> merge_ok(#[trigger] ms[i])
}

/// The tokens by id that the first `n` entries give; the rest is empty.
pub open spec fn token_table(entries: Seq<(Seq<char>, JsonView)>, n: nat) -> Seq<Seq<char>>
    decreases n,
{
    if n == 0 {
        Seq::new(entries.len(), |i: int| Seq::<char>::empty())
    } else {
        token_table(entries, (n - 1) as nat).update(
            entries[n - 1].1->Number_0->Some_0 as int,
            entries[n - 1].0,
        )
    }
}

/// The tokens by id.
pub open spec fn tokens_of(doc: JsonView) -> Seq<Seq<char>> {
    let entries = vocab_of(doc)->Object_0;
    token_table(entries, entries.len())
}

/// The added token `a` is special, and its text is `t`.
pub open spec fn marks_special(a: JsonView, t: Seq<char>) -> bool {
    field(a, "special"@) == JsonView::Bool(true) && field(a, "content"@) == JsonView::Text(t)
}

/// `t` is a special added token.
pub open spec fn is_special(doc: JsonView, t: Seq<char>) -> bool {
    match field(doc, "added_tokens"@) {
        JsonView::Array(added) => exists|i: int|
            0 <= i < added.len() && #[trigger] marks_special(added[i], t),
        _ => false,
    }
}

/// The type of a token: 2 for the unknown token, 3 for a special one, else 1.
pub open spec fn token_type(doc: JsonView, t: Seq<char>) -> i32 {
    if t == "<unk>"@ {
        2
    } else if is_special(doc, t) {
        3
    } else {
        1
    }
}

/// The types of the tokens.
pub open spec fn types_of(doc: JsonView) -> Seq<i32> {
    tokens_of(doc).map_values(|t: Seq<char>| token_type(doc, t))
}

/// A merge as one text: the two parts with a space between them.
pub open spec fn merge_text(m: JsonView) -> Seq<char> {
    match m {
        JsonView::Array(pair) => pair[0]->Text_0 + " "@ + pair[1]->Text_0,
        JsonView::Text(s) => s,
        _ => Seq::empty(),
    }
}

/// The merges as texts.
pub open spec fn merge_texts(doc: JsonView) -> Seq<Seq<char>> {
    merges_of(doc)->Array_0.map_values(|m: JsonView| merge_text(m))
}

/// The low 32 bits of the id of the unknown token.
pub open spec fn unk_of(doc: JsonView) -> u32 {
    ((lookup_from(vocab_of(doc)->Object_0, "<unk>"@, 0)->Some_0->Number_0->Some_0)
        % 0x1_0000_0000) as u32
}

/// The metadata of the tokenizer, in the order in which it is added.
pub open spec fn tokenizer_kvs(doc: JsonView) -> Seq<(Seq<char>, KvView)> {
    seq![
        ("tokenizer.ggml.model"@, KvView::Str("gpt2"@)),
        ("tokenizer.ggml.pre"@, KvView::Str("default"@)),
        ("tokenizer.ggml.tokens"@, KvView::ArrStr(tokens_of(doc))),
        ("tokenizer.ggml.token_type"@, KvView::ArrI32(types_of(doc))),
        ("tokenizer.ggml.merges"@, KvView::ArrStr(merge_texts(doc))),
        ("tokenizer.ggml.unknown_token_id"@, KvView::U32(unk_of(doc))),
        ("tokenizer.ggml.bos_token_id"@, KvView::U32(unk_of(doc))),
        ("tokenizer.ggml.eos_token_id"@, KvView::U32(unk_of(doc))),
        ("tokenizer.ggml.add_bos_token"@, KvView::Bool(false)),
    ]
}

/// Whether the two texts are the same.
fn same_text(a: &String, b: &str) -> (r: bool)
    ensures
        r == (a@ == b@),
{
    *a == b.to_owned()
}

/// The value under `key`.
fn lookup<'a>(entries: &'a Vec<(String, Json)>, key: &str) -> (res: Option<&'a Json>)
    ensures
        match res {
            Some(v) => lookup_from(entries_view(entries@), key@, 0) == Some(v@),
            None => lookup_from(entries_view(entries@), key@, 0) is None,
        },
{
    let ghost es = entries_view(entries@);
    for i in 0..entries.len()
        invariant
            es == entries_view(entries@),
            es.len() == entries@.len(),
            lookup_from(es, key@, 0) == lookup_from(es, key@, i as nat),
    {
        assert(es[i as int] == (entries@[i as int].0@, entries@[i as int].1@));
        if same_text(&entries[i].0, key) {
            return Some(&entries[i].1);
        }
    }
    None
}

/// The value under `key` of an object, if there is one.
fn member<'a>(j: &'a Json, key: &str) -> (res: Option<&'a Json>)
    ensures
        match res {
            Some(v) => field(j@, key@) == v@,
            None => field(j@, key@) == JsonView::Null,
        },
{
    match j {
        Json::Object(entries) => {
            proof {
                lemma_object_view(*entries);
            }
            lookup(entries, key)
        },
        _ => None,
    }
}

/// The entries of the vocabulary, if it is an object.
fn vocab<'a>(doc: &'a Json) -> (res: Option<&'a Vec<(String, Json)>>)
    ensures
        match res {
            Some(entries) => vocab_of(doc@) == JsonView::Object(entries_view(entries@)),
            None => vocab_of(doc@) !is Object,
        },
{
    match member(doc, "model") {
        Some(model) => match member(model, "vocab") {
            Some(Json::Object(entries)) => {
                proof {
                    lemma_object_view(*entries);
                }
                Some(entries)
            },
            _ => None,
        },
        None => None,
    }
}

/// The merges, if they are an array.
fn merges<'a>(doc: &'a Json) -> (res: Option<&'a Vec<Json>>)
    ensures
        match res {
            Some(ms) => merges_of(doc@) == JsonView::Array(items_view(ms@)),
            None => merges_of(doc@) !is Array,
        },
{
    match member(doc, "model") {
        Some(model) => match member(model, "merges") {
            Some(Json::Array(ms)) => {
                proof {
                    lemma_array_view(*ms);
                }
                Some(ms)
            },
            _ => None,
        },
        None => None,
    }
}

/// Whether a merge can be read.
fn check_merge(m: &Json) -> (r: bool)
    ensures
        r == merge_ok(m@),
{
    match m {
        Json::Array(pair) => {
            proof {
                lemma_array_view(*pair);
            }
            if pair.len() < 2 {
                return false;
            }
            assert(m@->Array_0[0] == pair@[0]@ && m@->Array_0[1] == pair@[1]@);
            is_text(&pair[0]) && is_text(&pair[1])
        },
        Json::Text(_) => true,
        _ => false,
    }
}

/// Whether `j` is a text.
fn is_text(j: &Json) -> (r: bool)
    ensures
        r == (j@ is Text),
{
    match j {
        Json::Text(_) => true,
        _ => false,
    }
}

/// Whether the document describes a byte-level BPE tokenizer.
pub fn check_tokenizer(doc: &Json) -> (r: bool)
    ensures
        r == well_formed(doc@),
{
    let entries = match vocab(doc) {
        Some(entries) => entries,
        None => {
            return false;
        },
    };
    let ghost es = entries_view(entries@);
    for i in 0..entries.len()
        invariant
            vocab_of(doc@) == JsonView::Object(es),
            es == entries_view(entries@),
            forall|k: int| 0 <= k < i ==> id_below((#[trigger] es[k]).1, es.len()),
    {
        assert(es[i as int].1 == entries@[i as int].1@);
        match &entries[i].1 {
            Json::Number(Some(id)) => {
                if *id >= entries.len() as u64 {
                    assert(!id_below(es[i as int].1, es.len()));
                    return false;
                }
            },
            _ => {
                assert(!id_below(es[i as int].1, es.len()));
                return false;
            },
        }
    }
    match lookup(entries, "<unk>") {
        Some(Json::Number(Some(_))) => {},
        _ => {
            return false;
        },
    }
    let ms = match merges(doc) {
        Some(ms) => ms,
        None => {
            return false;
        },
    };
    let ghost mv = items_view(ms@);
    for i in 0..ms.len()
        invariant
            merges_of(doc@) == JsonView::Array(mv),
            mv == items_view(ms@),
            mv.len() == ms@.len(),
            forall|k: int| 0 <= k < i ==> merge_ok(#[trigger] mv[k]),
    {
        assert(mv[i as int] == ms@[i as int]@);
        if !check_merge(&ms[i]) {
            assert(!merge_ok(merges_of(doc@)->Array_0[i as int]));
            return false;
        }
    }
    true
}

/// The tokens by id.
fn tokens(doc: &Json) -> (out: Vec<String>)
    requires
        well_formed(doc@),
    ensures
        texts(out@) == tokens_of(doc@),
{
    let entries = vocab(doc).unwrap();
    let ghost es = entries_view(entries@);
    let n = entries.len();
    let mut out: Vec<String> = Vec::with_capacity(n);
    for i in 0..n
        invariant
            n == es.len(),
            out@.len() == i,
            texts(out@) == token_table(es, 0).subrange(0, i as int),
    {
        out.push(String::new());
        assert(texts(out@) =~= token_table(es, 0).subrange(0, i + 1));
    }
    assert(texts(out@) =~= token_table(es, 0));
    for i in 0..n
        invariant
            n == es.len(),
            es == entries_view(entries@),
            well_formed(doc@),
            vocab_of(doc@) == JsonView::Object(es),
            out@.len() == n,
            texts(out@) == token_table(es, i as nat),
    {
        assert(id_below(es[i as int].1, es.len()));
        assert(es[i as int] == (entries@[i as int].0@, entries@[i as int].1@));
        if let Json::Number(Some(id)) = &entries[i].1 {
            let ghost before = out@;
            let k = *id as usize;
            out.set(k, entries[i].0.clone());
            assert(texts(out@) =~= texts(before).update(k as int, es[i as int].0));
        }
    }
    out
}

/// Whether the added token `a` is special, and its text is `t`.
fn check_mark(a: &Json, t: &String) -> (r: bool)
    ensures
        r == marks_special(a@, t@),
{
    match member(a, "special") {
        Some(Json::Bool(true)) => match member(a, "content") {
            Some(Json::Text(c)) => *c == *t,
            _ => false,
        },
        _ => false,
    }
}

/// Whether `t` is a special added token.
fn check_special(doc: &Json, t: &String) -> (r: bool)
    ensures
        r == is_special(doc@, t@),
{
    match member(doc, "added_tokens") {
        Some(Json::Array(added)) => {
            proof {
                lemma_array_view(*added);
            }
            let ghost av = items_view(added@);
            for i in 0..added.len()
                invariant
                    field(doc@, "added_tokens"@) == JsonView::Array(av),
                    av == items_view(added@),
                    av.len() == added@.len(),
                    forall|k: int| 0 <= k < i ==> !#[trigger] marks_special(av[k], t@),
            {
                assert(av[i as int] == added@[i as int]@);
                if check_mark(&added[i], t) {
                    assert(marks_special(
                        field(doc@, "added_tokens"@)->Array_0[i as int],
                        t@,
                    ));
                    return true;
                }
            }
            false
        },
        _ => false,
    }
}

/// The types of the tokens.
fn token_types(doc: &Json, tokens: &Vec<String>) -> (out: Vec<i32>)
    requires
        texts(tokens@) == tokens_of(doc@),
    ensures
        out@ == types_of(doc@),
{
    let mut out: Vec<i32> = Vec::with_capacity(tokens.len());
    for i in 0..tokens.len()
        invariant
            texts(tokens@) == tokens_of(doc@),
            out@ == types_of(doc@).subrange(0, i as int),
    {
        let t = &tokens[i];
        assert(tokens_of(doc@)[i as int] == t@) by {
            assert(texts(tokens@)[i as int] == t@);
        }
        let kind: i32 = if same_text(t, "<unk>") {
            2
        } else if check_special(doc, t) {
            3
        } else {
            1
        };
        out.push(kind);
        assert(out@ =~= types_of(doc@).subrange(0, i + 1));
    }
    assert(types_of(doc@).subrange(0, tokens@.len() as int) =~= types_of(doc@)) by {
        assert(texts(tokens@).len() == tokens@.len());
    }
    out
}

/// A merge as one text.
fn merge_string(m: &Json) -> (s: String)
    requires
        merge_ok(m@),
    ensures
        s@ == merge_text(m@),
{
    match m {
        Json::Array(pair) => {
            proof {
                lemma_array_view(*pair);
                assert(m@->Array_0[0] == pair@[0]@ && m@->Array_0[1] == pair@[1]@);
            }
            match (&pair[0], &pair[1]) {
                (Json::Text(a), Json::Text(b)) => {
                    let mut s = a.clone();
                    s.append(" ");
                    s.append(b.as_str());
                    s
                },
                _ => String::new(),
            }
        },
        Json::Text(s) => s.clone(),
        _ => String::new(),
    }
}

/// The merges as texts.
fn merge_strings(doc: &Json) -> (out: Vec<String>)
    requires
        well_formed(doc@),
    ensures
        texts(out@) == merge_texts(doc@),
{
    let ms = merges(doc).unwrap();
    let ghost mv = items_view(ms@);
    let mut out: Vec<String> = Vec::with_capacity(ms.len());
    for i in 0..ms.len()
        invariant
            well_formed(doc@),
            merges_of(doc@) == JsonView::Array(mv),
            mv == items_view(ms@),
            out@.len() == i,
            texts(out@) == merge_texts(doc@).subrange(0, i as int),
    {
        assert(mv[i as int] == ms@[i as int]@);
        assert(merge_ok(mv[i as int]));
        out.push(merge_string(&ms[i]));
        assert(texts(out@) =~= merge_texts(doc@).subrange(0, i + 1));
    }
    assert(merge_texts(doc@).subrange(0, ms@.len() as int) =~= merge_texts(doc@));
    out
}

/// The low 32 bits of the id of the unknown token.
fn unknown_id(doc: &Json) -> (id: u32)
    requires
        well_formed(doc@),
    ensures
        id == unk_of(doc@),
{
    let entries = vocab(doc).unwrap();
    match lookup(entries, "<unk>") {
        Some(Json::Number(Some(id))) => (*id % 0x1_0000_0000) as u32,
        _ => 0,
    }
}

/// Add the metadata of the tokenizer that `doc` describes: the model kind, the
/// tokens by id, their types, the merges and the special ids.
pub fn add_tokenizer(w: &mut GgufWriter, doc: &Json)
    requires
        well_formed(doc@),
    ensures
        final(w)@.kvs == old(w)@.kvs + tokenizer_kvs(doc@),
        final(w)@.tensors == old(w)@.tensors,
{
    let ghost before = w@.kvs;
    let names = tokens(doc);
    let types = token_types(doc, &names);
    let merges = merge_strings(doc);
    let unk = unknown_id(doc);
    w.kv_str("tokenizer.ggml.model", "gpt2");
    w.kv_str("tokenizer.ggml.pre", "default");
    w.kv_arr_str("tokenizer.ggml.tokens", names);
    w.kv_arr_i32("tokenizer.ggml.token_type", types);
    w.kv_arr_str("tokenizer.ggml.merges", merges);
    w.kv_u32("tokenizer.ggml.unknown_token_id", unk);
    w.kv_u32("tokenizer.ggml.bos_token_id", unk);
    w.kv_u32("tokenizer.ggml.eos_token_id", unk);
    w.kv_bool("tokenizer.ggml.add_bos_token", false);
    assert(w@.kvs =~= before + tokenizer_kvs(doc@));
}

/// Why a tokenizer could not be added.
pub enum TokenizerError {
    /// The bytes hold no JSON text.
    Parse(serde_json::Error),
    /// The document does not describe a byte-level BPE tokenizer.
    Malformed,
}

/// Parse a `tokenizer.json` document and add its tokenizer metadata. Where that
/// fails, the writer is what it was.
pub fn add_byte_bpe_tokenizer(w: &mut GgufWriter, bytes: &[u8]) -> (res: Result<
    (),
    TokenizerError,
>)
    ensures
        match (parsed_json(bytes@), res) {
            (None, Err(TokenizerError::Parse(_))) => *final(w) == *old(w),
            (Some(doc), Err(TokenizerError::Malformed)) => !well_formed(doc) && *final(w) == *old(
                w,
            ),
            (Some(doc), Ok(_)) => {
                &&& well_formed(doc)
                &&& final(w)@.kvs == old(w)@.kvs + tokenizer_kvs(doc)
                &&& final(w)@.tensors == old(w)@.tensors
            },
            _ => false,
        },
{
    match parse_json(bytes) {
        Ok(doc) => {
            if check_tokenizer(&doc) {
                add_tokenizer(w, &doc);
                Ok(())
            } else {
                Err(TokenizerError::Malformed)
            }
        },
        Err(e) => Err(TokenizerError::Parse(e)),
    }
}

/// A token stands at its id, unless a later entry has the same id.
pub proof fn lemma_token_at_id(doc: JsonView, i: int)
    requires
        well_formed(doc),
        ({
            let entries = vocab_of(doc)->Object_0;
            &&& 0 <= i < entries.len()
            &&& forall|j: int|
                i < j < entries.len() ==> (#[trigger] entries[j]).1 != entries[i].1
        }),
    ensures
        tokens_of(doc).len() == vocab_of(doc)->Object_0.len(),
        tokens_of(doc)[vocab_of(doc)->Object_0[i].1->Number_0->Some_0 as int]
            == vocab_of(doc)->Object_0[i].0,
{
    let entries = vocab_of(doc)->Object_0;
    lemma_table_from(entries, entries.len(), i);
}

/// The same for the first `n` entries.
proof fn lemma_table_from(entries: Seq<(Seq<char>, JsonView)>, n: nat, i: int)
    requires
        0 <= i < n <= entries.len(),
        forall|j: int|
            0 <= j < entries.len() ==> id_below((#[trigger] entries[j]).1, entries.len()),
        forall|j: int| i < j < entries.len() ==> (#[trigger] entries[j]).1 != entries[i].1,
    ensures
        token_table(entries, n).len() == entries.len(),
        token_table(entries, n)[entries[i].1->Number_0->Some_0 as int] == entries[i].0,
    decreases n,
{
    lemma_table_len(entries, (n - 1) as nat);
    assert(id_below(entries[n - 1].1, entries.len()));
    assert(id_below(entries[i].1, entries.len()));
    if i < n - 1 {
        lemma_table_from(entries, (n - 1) as nat, i);
        assert(entries[n - 1].1 != entries[i].1);
    }
}

/// The table has a place for every entry.
proof fn lemma_table_len(entries: Seq<(Seq<char>, JsonView)>, n: nat)
    requires
        n <= entries.len(),
        forall|j: int|
            0 <= j < entries.len() ==> id_below((#[trigger] entries[j]).1, entries.len()),
    ensures
        token_table(entries, n).len() == entries.len(),
    decreases n,
{
    if n > 0 {
        lemma_table_len(entries, (n - 1) as nat);
        assert(id_below(entries[n - 1].1, entries.len()));
    }
}

} // verus!
