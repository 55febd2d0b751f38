use vstd::prelude::*;
use crate::json::{JsonValue, is_scalar, member};
use crate::project::{
    Config, RowIssue, QUOTE, bool_bytes, cells, doubled, field_bytes, first_nested, header_spec,
    piece, quoted, record_line, row_spec, text_bytes, all_scalar, join, fields_before,
    written_spec,
};
use crate::decode::{Pulled, document_of, first_document_of};
use crate::convert::{Fault, convert_spec, document_spec, rows_spec, stream_spec};

verus! {

/// The bytes `b` with each doubled quote read back as one quote.
pub open spec fn undoubled(b: Seq<u8>) -> Seq<u8>
    decreases b.len(),
{
    if b.len() == 0 {
        Seq::empty()
    } else if b.len() >= 2 && b[0] == QUOTE && b[1] == QUOTE {
        seq![QUOTE] + undoubled(b.subrange(2, b.len() as int))
    } else {
        seq![b[0]] + undoubled(b.drop_first())
    }
}

/// A field read back the plain CSV way: the text between an outer pair of
/// quotes with doubled quotes undone, or the field itself where it is not
/// quoted.
pub open spec fn unquoted(b: Seq<u8>) -> Seq<u8> {
    if b.len() >= 2 && b[0] == QUOTE && b.last() == QUOTE {
        undoubled(b.subrange(1, b.len() - 1))
    } else {
        b
    }
}

/// The text a scalar stands for: a string's bytes, `true` or `false`, a
/// number's text, and nothing for null.
pub open spec fn scalar_text(v: JsonValue) -> Seq<u8> {
    match v {
        JsonValue::Str(s) => text_bytes(s),
        JsonValue::Bool(b) => bool_bytes(b),
        JsonValue::Number(t) => text_bytes(t),
        _ => Seq::empty(),
    }
}

/// Whether a field read back from a line stands for the scalar `v`: a
/// string written with quotes unquotes to its text, anything else is its
/// text.
pub open spec fn reads_as(field: Seq<u8>, v: JsonValue, raw: bool) -> bool {
    if v is Str && !raw {
        unquoted(field) == scalar_text(v)
    } else {
        field == scalar_text(v)
    }
}

/// The lines of some records, one each.
pub open spec fn lines(records: Seq<JsonValue>, cfg: Config) -> Seq<Seq<u8>> {
    Seq::new(records.len(), |i: int| record_line(records[i], cfg))
}

/// Whether a record is an object whose requested columns all hold scalars.
pub open spec fn flat_record(v: JsonValue, cfg: Config) -> bool {
    v is Object && all_scalar(v->Object_0@, cfg.columns@)
}

/// The documents that `input` holds one after another, up to the first
/// that is malformed.
pub open spec fn documents(input: Seq<u8>) -> Seq<JsonValue>
    decreases input.len(),
{
    match first_document_of(input) {
        Pulled::Item(v, n) => if 0 < n <= input.len() {
            seq![v] + documents(input.subrange(n as int, input.len() as int))
        } else {
            Seq::empty()
        },
        _ => Seq::empty(),
    }
}

/// Whether `input` is a whole stream of well-formed documents.
pub open spec fn whole_stream(input: Seq<u8>) -> bool
    decreases input.len(),
{
    match first_document_of(input) {
        Pulled::End => true,
        Pulled::Item(v, n) => 0 < n <= input.len() && whole_stream(
            input.subrange(n as int, input.len() as int),
        ),
        Pulled::Failed => false,
    }
}

proof fn lemma_doubled_front(b: Seq<u8>)
    requires
        b.len() > 0,
    ensures
        doubled(b) == piece(b[0]) + doubled(b.drop_first()),
    decreases b.len(),
{
    if b.len() == 1 {
        assert(b.drop_last() =~= Seq::<u8>::empty());
        assert(b.drop_first() =~= Seq::<u8>::empty());
        assert(doubled(b) =~= piece(b[0]) + doubled(b.drop_first()));
    } else {
        lemma_doubled_front(b.drop_last());
        assert(b.drop_last().drop_first() =~= b.drop_first().drop_last());
        assert(doubled(b) =~= piece(b[0]) + doubled(b.drop_first()));
    }
}

proof fn lemma_undoubled_piece(c: u8, rest: Seq<u8>)
    ensures
        undoubled(piece(c) + rest) == seq![c] + undoubled(rest),
{
    let b = piece(c) + rest;
    if c == QUOTE {
        assert(b.subrange(2, b.len() as int) =~= rest);
    } else {
        assert(b.drop_first() =~= rest);
    }
}

/// Doubling the quotes of some bytes and then reading doubled quotes back
/// gives the bytes again.
pub proof fn lemma_undoubled_doubled(b: Seq<u8>)
    ensures
        undoubled(doubled(b)) == b,
    decreases b.len(),
{
    if b.len() > 0 {
        lemma_doubled_front(b);
        lemma_undoubled_piece(b[0], doubled(b.drop_first()));
        lemma_undoubled_doubled(b.drop_first());
        assert(seq![b[0]] + b.drop_first() =~= b);
    }
}

/// A field read back the plain CSV way gives the text of the scalar it was
/// written from: a raw string, a boolean, a number and null are written as
/// that text itself, and a quoted string unquotes to its bytes.
pub proof fn lemma_field_round_trip(v: JsonValue, raw: bool)
    requires
        is_scalar(v),
    ensures
        !(v is Str) || raw ==> field_bytes(v, raw) == scalar_text(v),
        v is Str && !raw ==> unquoted(field_bytes(v, raw)) == scalar_text(v),
{
    if let JsonValue::Str(s) = v {
        if !raw {
            let q = quoted(text_bytes(s));
            assert(q.subrange(1, q.len() - 1) =~= doubled(text_bytes(s)));
            lemma_undoubled_doubled(text_bytes(s));
        }
    }
}

/// The pieces of `b` between occurrences of `sep`, found from the left.
pub open spec fn split_on(b: Seq<u8>, sep: Seq<u8>) -> Seq<Seq<u8>>
    decreases b.len(),
{
    if sep.len() > 0 && sep.len() <= b.len() && b.take(sep.len() as int) == sep {
        seq![Seq::empty()] + split_on(b.skip(sep.len() as int), sep)
    } else if b.len() == 0 {
        seq![Seq::empty()]
    } else {
        let r = split_on(b.drop_first(), sep);
        r.update(0, seq![b[0]] + r[0])
    }
}

proof fn lemma_split_on_len(b: Seq<u8>, sep: Seq<u8>)
    ensures
        split_on(b, sep).len() >= 1,
    decreases b.len(),
{
    if sep.len() > 0 && sep.len() <= b.len() && b.take(sep.len() as int) == sep {
        lemma_split_on_len(b.skip(sep.len() as int), sep);
    } else if b.len() > 0 {
        lemma_split_on_len(b.drop_first(), sep);
    }
}

proof fn lemma_split_on_field(y: Seq<u8>, t: Seq<u8>, sep: Seq<u8>)
    requires
        sep.len() > 0,
        !y.contains(sep[0]),
    ensures
        split_on(y + t, sep) == split_on(t, sep).update(0, y + split_on(t, sep)[0]),
    decreases y.len(),
{
    lemma_split_on_len(t, sep);
    if y.len() == 0 {
        assert(y + t =~= t);
        assert(split_on(t, sep).update(0, y + split_on(t, sep)[0]) =~= split_on(t, sep));
    } else {
        let b = y + t;
        assert(b[0] == y[0]);
        assert(y[0] != sep[0]);
        if sep.len() <= b.len() && b.take(sep.len() as int) == sep {
            assert(b.take(sep.len() as int)[0] == b[0]);
        }
        let y1 = y.drop_first();
        assert(!y1.contains(sep[0])) by {
            if y1.contains(sep[0]) {
                let j = choose|j: int| 0 <= j < y1.len() && y1[j] == sep[0];
                assert(y[j + 1] == sep[0]);
            }
        }
        assert(b.drop_first() =~= y1 + t);
        lemma_split_on_field(y1, t, sep);
        assert(seq![y[0]] + (y1 + split_on(t, sep)[0]) =~= y + split_on(t, sep)[0]);
        assert(split_on(b, sep) =~= split_on(t, sep).update(0, y + split_on(t, sep)[0]));
    }
}

proof fn lemma_split_on_sep(t: Seq<u8>, sep: Seq<u8>)
    requires
        sep.len() > 0,
    ensures
        split_on(sep + t, sep) == seq![Seq::<u8>::empty()] + split_on(t, sep),
{
    let b = sep + t;
    assert(b.take(sep.len() as int) =~= sep);
    assert(b.skip(sep.len() as int) =~= t);
}

proof fn lemma_join_front(f: Seq<Seq<u8>>, sep: Seq<u8>)
    requires
        f.len() >= 2,
    ensures
        join(f, sep) == f[0] + sep + join(f.drop_first(), sep),
    decreases f.len(),
{
    if f.len() == 2 {
        assert(f.drop_last().len() == 1);
        assert(f.drop_first().len() == 1);
        assert(join(f.drop_last(), sep) == f[0]);
        assert(join(f.drop_first(), sep) == f[1]);
        assert(join(f, sep) == join(f.drop_last(), sep) + sep + f.last());
        assert(join(f, sep) =~= f[0] + sep + join(f.drop_first(), sep));
    } else {
        lemma_join_front(f.drop_last(), sep);
        assert(f.drop_last().drop_first() =~= f.drop_first().drop_last());
        assert(join(f, sep) == join(f.drop_last(), sep) + sep + f.last());
        assert(join(f.drop_first(), sep) == join(f.drop_first().drop_last(), sep) + sep
            + f.drop_first().last());
        assert(f.drop_first().last() == f.last());
        assert(join(f, sep) =~= f[0] + sep + join(f.drop_first(), sep));
    }
}

proof fn lemma_split_on_join(f: Seq<Seq<u8>>, sep: Seq<u8>)
    requires
        f.len() >= 1,
        sep.len() > 0,
        forall|k: int| 0 <= k < f.len() ==> !(#[trigger] f[k]).contains(sep[0]),
    ensures
        split_on(join(f, sep), sep) == f,
    decreases f.len(),
{
    assert(!f[0].contains(sep[0]));
    if f.len() == 1 {
        lemma_split_on_field(f[0], Seq::empty(), sep);
        assert(f[0] + Seq::<u8>::empty() =~= f[0]);
        assert(split_on(join(f, sep), sep) =~= f);
    } else {
        let g = f.drop_first();
        assert forall|k: int| 0 <= k < g.len() implies !(#[trigger] g[k]).contains(sep[0]) by {
            assert(g[k] == f[k + 1]);
        }
        lemma_split_on_join(g, sep);
        lemma_join_front(f, sep);
        let j = join(g, sep);
        assert(f[0] + sep + j =~= f[0] + (sep + j));
        lemma_split_on_field(f[0], sep + j, sep);
        lemma_split_on_sep(j, sep);
        assert(Seq::<u8>::empty() + f[0] =~= f[0]);
        assert(f[0] + Seq::<u8>::empty() =~= f[0]);
        assert(split_on(join(f, sep), sep) =~= f);
    }
}

/// A line written with a separator whose first byte no field holds splits,
/// from the left, on that separator into one field per column, and each
/// field reads back as the scalar that the record holds under its column,
/// or as nothing where the column is absent or null.
pub proof fn lemma_line_splits(v: JsonValue, cfg: Config)
    requires
        flat_record(v, cfg),
        cfg.columns@.len() >= 1,
        text_bytes(cfg.separator).len() > 0,
        forall|k: int|
            0 <= k < cfg.columns@.len() ==> !(#[trigger] cells(v->Object_0@, cfg.columns@, cfg.raw)[k]).contains(
                text_bytes(cfg.separator)[0],
            ),
    ensures
        split_on(record_line(v, cfg).drop_last(), text_bytes(cfg.separator)).len()
            == cfg.columns@.len(),
        forall|k: int|
            0 <= k < cfg.columns@.len() ==> reads_as(
                #[trigger] split_on(record_line(v, cfg).drop_last(), text_bytes(cfg.separator))[k],
                member(v->Object_0@, cfg.columns@[k]@),
                cfg.raw,
            ),
{
    let m = v->Object_0@;
    let sep = text_bytes(cfg.separator);
    let f = cells(m, cfg.columns@, cfg.raw);
    lemma_split_on_join(f, sep);
    assert(record_line(v, cfg).drop_last() =~= join(f, sep));
    assert forall|k: int| 0 <= k < cfg.columns@.len() implies reads_as(
        #[trigger] split_on(record_line(v, cfg).drop_last(), sep)[k],
        member(m, cfg.columns@[k]@),
        cfg.raw,
    ) by {
        assert(is_scalar(member(m, cfg.columns@[k]@)));
        lemma_field_round_trip(member(m, cfg.columns@[k]@), cfg.raw);
    }
}

/// An array of objects whose requested columns all hold scalars converts
/// without error to the header and then one line per element, in order,
/// each the fields of its columns joined by the separator.
pub proof fn lemma_flat_array(doc: JsonValue, cfg: Config)
    requires
        doc is Array,
        forall|i: int| 0 <= i < doc->Array_0@.len() ==> flat_record(#[trigger] doc->Array_0@[i], cfg),
    ensures
        document_spec(doc, cfg) == (header_spec(cfg) + lines(doc->Array_0@, cfg).flatten(), None::<Fault>),
{
    lemma_flat_rows(doc->Array_0@, cfg);
}

proof fn lemma_flat_rows(records: Seq<JsonValue>, cfg: Config)
    requires
        forall|i: int| 0 <= i < records.len() ==> flat_record(#[trigger] records[i], cfg),
    ensures
        rows_spec(records, cfg) == (lines(records, cfg).flatten(), None::<Fault>),
    decreases records.len(),
{
    if records.len() > 0 {
        assert(flat_record(records[0], cfg));
        lemma_flat_rows(records.drop_first(), cfg);
        assert(lines(records, cfg).drop_first() =~= lines(records.drop_first(), cfg));
    } else {
        assert(lines(records, cfg) =~= Seq::<Seq<u8>>::empty());
    }
}

/// In a stream of well-formed documents, each an object whose requested
/// columns all hold scalars, every document gives exactly one line, in the
/// order of the stream, and the conversion ends without error.
pub proof fn lemma_stream_lines(input: Seq<u8>, cfg: Config)
    requires
        whole_stream(input),
        forall|i: int|
            0 <= i < documents(input).len() ==> flat_record(#[trigger] documents(input)[i], cfg),
    ensures
        stream_spec(input, cfg) == (lines(documents(input), cfg).flatten(), None::<Fault>),
        lines(documents(input), cfg).len() == documents(input).len(),
    decreases input.len(),
{
    match first_document_of(input) {
        Pulled::Item(v, n) => {
            let rest = input.subrange(n as int, input.len() as int);
            assert(documents(input)[0] == v);
            assert(documents(input).drop_first() =~= documents(rest));
            assert forall|i: int| 0 <= i < documents(rest).len() implies flat_record(
                #[trigger] documents(rest)[i],
                cfg,
            ) by {
                assert(documents(rest)[i] == documents(input)[i + 1]);
            }
            lemma_stream_lines(rest, cfg);
            assert(lines(documents(input), cfg).drop_first() =~= lines(documents(rest), cfg));
        },
        _ => {
            assert(lines(documents(input), cfg) =~= Seq::<Seq<u8>>::empty());
        },
    }
}

/// The header is written once, first, and only where the records are read:
/// in stream mode always, in document mode where the document is an array.
pub proof fn lemma_header_first(input: Seq<u8>, cfg: Config)
    ensures
        cfg.no_root ==> convert_spec(input, cfg).0 == header_spec(cfg) + stream_spec(input, cfg).0,
        !cfg.no_root ==> (document_of(input) matches Some(JsonValue::Array(items))
            ==> convert_spec(input, cfg).0 == header_spec(cfg) + rows_spec(items@, cfg).0),
        !cfg.no_root && !(document_of(input) matches Some(JsonValue::Array(_)))
            ==> convert_spec(input, cfg).0.len() == 0,
{
}

/// In document mode a document that is not an array is a shape fault, and
/// nothing is written, not even the header.
pub proof fn lemma_root_not_array(input: Seq<u8>, cfg: Config)
    requires
        !cfg.no_root,
        document_of(input) matches Some(v) && !(v is Array),
    ensures
        convert_spec(input, cfg) == (Seq::<u8>::empty(), Some(Fault::Shape)),
{
}

proof fn lemma_absent_member(members: Seq<(String, JsonValue)>, key: Seq<char>)
    requires
        forall|j: int| 0 <= j < members.len() ==> (#[trigger] members[j]).0@ != key,
    ensures
        member(members, key) == JsonValue::Null,
    decreases members.len(),
{
    if members.len() > 0 {
        assert(members[0].0@ != key);
        assert forall|j: int| 0 <= j < members.drop_first().len() implies (
        #[trigger] members.drop_first()[j]).0@ != key by {
            assert(members.drop_first()[j] == members[j + 1]);
        }
        lemma_absent_member(members.drop_first(), key);
    }
}

/// A column that an object lacks is read as null: its field is empty, and
/// it is no reason to fail the line.
pub proof fn lemma_missing_column(members: Seq<(String, JsonValue)>, cfg: Config, k: int)
    requires
        0 <= k < cfg.columns@.len(),
        forall|j: int| 0 <= j < members.len() ==> (#[trigger] members[j]).0@ != cfg.columns@[k]@,
    ensures
        member(members, cfg.columns@[k]@) == JsonValue::Null,
        is_scalar(member(members, cfg.columns@[k]@)),
        cells(members, cfg.columns@, cfg.raw)[k].len() == 0,
{
    lemma_absent_member(members, cfg.columns@[k]@);
}

/// The fields `f` before the `k`-th, each followed by `sep`.
pub open spec fn terminated(f: Seq<Seq<u8>>, sep: Seq<u8>, k: int) -> Seq<Seq<u8>> {
    Seq::new(k as nat, |j: int| f[j] + sep)
}

proof fn lemma_fields_before_terminated(f: Seq<Seq<u8>>, sep: Seq<u8>, k: int)
    requires
        0 <= k <= f.len(),
    ensures
        fields_before(f, sep, k) == terminated(f, sep, k).flatten(),
    decreases k,
{
    terminated(f, sep, k).lemma_flatten_and_flatten_alt_are_equivalent();
    if k == 0 {
        assert(terminated(f, sep, k).flatten_alt() =~= Seq::<u8>::empty());
    } else if k == 1 {
        assert(terminated(f, sep, k).drop_last() =~= Seq::<Seq<u8>>::empty());
        assert(f.take(1).len() == 1);
        assert(terminated(f, sep, k).drop_last().flatten_alt() =~= Seq::<u8>::empty());
        assert(terminated(f, sep, k).last() == f[0] + sep);
        assert(terminated(f, sep, k).flatten_alt() =~= Seq::<u8>::empty() + (f[0] + sep));
        assert(terminated(f, sep, k).flatten_alt() =~= f[0] + sep);
    } else {
        lemma_fields_before_terminated(f, sep, k - 1);
        terminated(f, sep, k - 1).lemma_flatten_and_flatten_alt_are_equivalent();
        assert(terminated(f, sep, k).drop_last() =~= terminated(f, sep, k - 1));
        assert(f.take(k).drop_last() =~= f.take(k - 1));
        assert(fields_before(f, sep, k) =~= fields_before(f, sep, k - 1) + (f[k - 1] + sep));
    }
}

/// Where the `k`-th column of an object is the first to hold an array or
/// an object, what is written of its line is each field before that column
/// followed by the separator, and no newline.
pub proof fn lemma_partial_line(record: JsonValue, cfg: Config, k: int)
    requires
        record is Object,
        first_nested(record->Object_0@, cfg.columns@, k),
    ensures
        written_spec(record, cfg) == terminated(
            cells(record->Object_0@, cfg.columns@, cfg.raw),
            text_bytes(cfg.separator),
            k,
        ).flatten(),
{
    lemma_nested_column(record, cfg, k);
    lemma_fields_before_terminated(cells(record->Object_0@, cfg.columns@, cfg.raw), text_bytes(cfg.separator), k);
}

/// Where the `i`-th element of an array is the first that cannot be
/// written, because its `k`-th column is the first to hold an array or an
/// object, the conversion writes the header, the lines of the elements
/// before it, and the fields of its line before that column, each followed
/// by the separator; then it stops with an error that names the column.
pub proof fn lemma_array_stops_at_nested(doc: JsonValue, cfg: Config, i: int, k: int)
    requires
        doc is Array,
        0 <= i < doc->Array_0@.len(),
        forall|j: int| 0 <= j < i ==> flat_record(#[trigger] doc->Array_0@[j], cfg),
        doc->Array_0@[i] is Object,
        first_nested(doc->Array_0@[i]->Object_0@, cfg.columns@, k),
    ensures
        document_spec(doc, cfg) == (header_spec(cfg) + lines(doc->Array_0@.take(i), cfg).flatten()
            + terminated(
            cells(doc->Array_0@[i]->Object_0@, cfg.columns@, cfg.raw),
            text_bytes(cfg.separator),
            k,
        ).flatten(), Some(Fault::InvalidColumn(cfg.columns@[k]))),
{
    lemma_rows_stop(doc->Array_0@, cfg, i, k);
    lemma_partial_line(doc->Array_0@[i], cfg, k);
    assert(header_spec(cfg) + lines(doc->Array_0@.take(i), cfg).flatten() + written_spec(
        doc->Array_0@[i],
        cfg,
    ) =~= header_spec(cfg) + (lines(doc->Array_0@.take(i), cfg).flatten() + written_spec(
        doc->Array_0@[i],
        cfg,
    )));
}

proof fn lemma_rows_stop(records: Seq<JsonValue>, cfg: Config, i: int, k: int)
    requires
        0 <= i < records.len(),
        forall|j: int| 0 <= j < i ==> flat_record(#[trigger] records[j], cfg),
        records[i] is Object,
        first_nested(records[i]->Object_0@, cfg.columns@, k),
    ensures
        rows_spec(records, cfg) == (lines(records.take(i), cfg).flatten() + written_spec(
            records[i],
            cfg,
        ), Some(Fault::InvalidColumn(cfg.columns@[k]))),
    decreases i,
{
    lemma_nested_column(records[i], cfg, k);
    if i == 0 {
        assert(lines(records.take(0), cfg) =~= Seq::<Seq<u8>>::empty());
        assert(Seq::<u8>::empty() + written_spec(records[0], cfg) =~= written_spec(records[0], cfg));
    } else {
        let rest = records.drop_first();
        assert forall|j: int| 0 <= j < i - 1 implies flat_record(#[trigger] rest[j], cfg) by {
            assert(rest[j] == records[j + 1]);
        }
        assert(rest[i - 1] == records[i]);
        lemma_rows_stop(rest, cfg, i - 1, k);
        assert(flat_record(records[0], cfg));
        assert(lines(records.take(i), cfg).drop_first() =~= lines(rest.take(i - 1), cfg));
        assert(lines(records.take(i), cfg)[0] == record_line(records[0], cfg));
        assert(lines(records.take(i), cfg).flatten() =~= record_line(records[0], cfg) + lines(
            rest.take(i - 1),
            cfg,
        ).flatten());
        assert(rows_spec(records, cfg).0 =~= lines(records.take(i), cfg).flatten() + written_spec(
            records[i],
            cfg,
        ));
    }
}

/// Where the `i`-th document of a stream is the first that cannot be
/// written, because its `k`-th column is the first to hold an array or an
/// object, the stream gives the lines of the documents before it and the
/// fields of its line before that column, each followed by the separator;
/// then it stops with an error that names the column.
pub proof fn lemma_stream_stops_at_nested(input: Seq<u8>, cfg: Config, i: int, k: int)
    requires
        0 <= i < documents(input).len(),
        forall|j: int| 0 <= j < i ==> flat_record(#[trigger] documents(input)[j], cfg),
        documents(input)[i] is Object,
        first_nested(documents(input)[i]->Object_0@, cfg.columns@, k),
    ensures
        stream_spec(input, cfg) == (lines(documents(input).take(i), cfg).flatten() + terminated(
            cells(documents(input)[i]->Object_0@, cfg.columns@, cfg.raw),
            text_bytes(cfg.separator),
            k,
        ).flatten(), Some(Fault::InvalidColumn(cfg.columns@[k]))),
    decreases i,
{
    let docs = documents(input);
    lemma_partial_line(docs[i], cfg, k);
    lemma_nested_column(docs[i], cfg, k);
    if let Pulled::Item(v, n) = first_document_of(input) {
        let rest = input.subrange(n as int, input.len() as int);
        assert(docs[0] == v);
        assert(docs.drop_first() =~= documents(rest));
        if i == 0 {
            assert(lines(docs.take(0), cfg) =~= Seq::<Seq<u8>>::empty());
            assert(Seq::<u8>::empty() + written_spec(v, cfg) =~= written_spec(v, cfg));
        } else {
            assert forall|j: int| 0 <= j < i - 1 implies flat_record(
                #[trigger] documents(rest)[j],
                cfg,
            ) by {
                assert(documents(rest)[j] == docs[j + 1]);
            }
            assert(documents(rest)[i - 1] == docs[i]);
            lemma_stream_stops_at_nested(rest, cfg, i - 1, k);
            assert(flat_record(docs[0], cfg));
            assert(lines(docs.take(i), cfg).drop_first() =~= lines(documents(rest).take(i - 1), cfg));
            assert(lines(docs.take(i), cfg)[0] == record_line(v, cfg));
            assert(lines(docs.take(i), cfg).flatten() =~= record_line(v, cfg) + lines(
                documents(rest).take(i - 1),
                cfg,
            ).flatten());
            assert(stream_spec(input, cfg).0 =~= lines(docs.take(i), cfg).flatten() + written_spec(
                docs[i],
                cfg,
            ));
        }
    }
}

/// The first column of an object that holds an array or an object fails
/// the line with an error that names that column.
pub proof fn lemma_nested_column(record: JsonValue, cfg: Config, k: int)
    requires
        record is Object,
        first_nested(record->Object_0@, cfg.columns@, k),
    ensures
        row_spec(record, cfg) == Err::<Seq<u8>, RowIssue>(RowIssue::NestedColumn(cfg.columns@[k])),
{
    let m = record->Object_0@;
    assert(!all_scalar(m, cfg.columns@));
    let c = choose|c: int| first_nested(m, cfg.columns@, c);
    assert(c == k) by {
        if c < k {
            assert(is_scalar(member(m, cfg.columns@[c]@)));
        }
        if k < c {
            assert(is_scalar(member(m, cfg.columns@[k]@)));
        }
    }
}

} // verus!
