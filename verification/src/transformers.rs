//! The stages that ship with the framework.

use crate::framework::{
    branch_of, branching_count, entered, flat_outputs, fork_total, holds_for_some,
    lemma_holds_for_some_step, lemma_rest_of, marked, records, run_count, Branch, Chain,
    CloseTransform, FailureFlags, FlowFile, FlowFileMeta, FromArgs, Junction, Lineage, Record,
    StartTransform, Transform,
};
use crate::text::{
    contains_text, decimal_text, ends_with, has_substring, has_suffix, push_decimal, texts,
};
use std::io::Read;
use std::marker::PhantomData;
use vstd::prelude::*;
use vstd::std_specs::convert::FromSpecImpl;
use vstd::string::*;
use vstd::utf8::{decode_utf8, encode_utf8, valid_utf8};

verus! {

/// The provenance of the item at position `i` of what was made of a record
/// with provenance `source`: a colon and the position are appended.
pub open spec fn numbered_source(source: Seq<char>, i: nat) -> Seq<char> {
    source + seq![':'] + decimal_text(i)
}

/// The records made of a list of decoded items, where `None` stands for an
/// item that could not be decoded: each decoded item becomes a record of the
/// origin's unit, its provenance extended by the item's position in the list;
/// the others are left out.
pub open spec fn numbered<V>(items: Seq<Option<V>>, origin: Lineage) -> Seq<Record<V>>
    decreases items.len(),
{
    if items.len() == 0 {
        Seq::empty()
    } else {
        let init = numbered(items.drop_last(), origin);
        match items.last() {
            Some(data) => init.push(
                Record {
                    data,
                    source: numbered_source(origin.source, (items.len() - 1) as nat),
                    failed: origin.failed,
                },
            ),
            None => init,
        }
    }
}

/// The test whether an item could not be decoded.
pub open spec fn undecoded<V>() -> spec_fn(Option<V>) -> bool {
    |item: Option<V>| item is None
}

/// Whether one of the items could not be decoded.
pub open spec fn any_undecoded<V>(items: Seq<Option<V>>) -> bool {
    holds_for_some(items, undecoded())
}

/// The items as plain values.
pub open spec fn item_views<T: View>(items: Seq<Option<T>>) -> Seq<Option<T::V>> {
    Seq::new(
        items.len(),
        |i: int|
            match items[i] {
                Some(t) => Some(t@),
                None => None,
            },
    )
}

/// Every record made of decoded items belongs to the origin's unit.
pub proof fn lemma_numbered_keep_unit<V>(items: Seq<Option<V>>, origin: Lineage)
    ensures
        forall|i: int|
            0 <= i < numbered(items, origin).len() ==> (#[trigger] numbered(items, origin)[i]).failed
                == origin.failed,
    decreases items.len(),
{
    if items.len() > 0 {
        lemma_numbered_keep_unit(items.drop_last(), origin);
    }
}

/// Where every item was decoded, there is one record for each item.
pub proof fn lemma_numbered_length<V>(items: Seq<Option<V>>, origin: Lineage)
    requires
        !any_undecoded(items),
    ensures
        numbered(items, origin).len() == items.len(),
    decreases items.len(),
{
    if items.len() > 0 {
        let n = items.len() - 1;
        assert(items.take(n as int) =~= items.drop_last());
        assert(items.take(n + 1) =~= items);
        lemma_holds_for_some_step(items, n as int, undecoded());
        lemma_numbered_length(items.drop_last(), origin);
    }
}

/// Turns decoded items into records. An item that could not be decoded is
/// left out and sets the failure flag of the origin's unit; the others go on.
pub fn number_records<T: View>(
    items: Vec<Option<T>>,
    meta: FlowFileMeta,
    flags: &mut FailureFlags,
) -> (out: Vec<FlowFile<T>>)
    ensures
        records(out@) == numbered(item_views(items@), meta@),
        final(flags)@ == (if any_undecoded(item_views(items@)) {
            marked(old(flags)@, meta@.failed)
        } else {
            old(flags)@
        }),
{
    let mut items = items;
    let ghost all = item_views(items@);
    let ghost before = flags@;
    let mut out: Vec<FlowFile<T>> = Vec::new();
    let mut i: usize = 0;
    assert(all.len() == items.len());
    assert(all.take(0) =~= Seq::empty());
    assert(records(out@) =~= numbered(all.take(0), meta@));
    while items.len() > 0
        invariant
            0 <= i <= all.len(),
            i + items@.len() == all.len(),
            all.len() <= usize::MAX,
            item_views(items@) == all.skip(i as int),
            records(out@) == numbered(all.take(i as int), meta@),
            flags@ == (if any_undecoded(all.take(i as int)) {
                marked(before, meta@.failed)
            } else {
                before
            }),
        decreases items.len(),
    {
        let ghost rest = item_views(items@);
        let item = items.remove(0);
        proof {
            lemma_rest_of(rest, all, i as int);
            assert(item_views(items@) =~= rest.skip(1));
            lemma_holds_for_some_step(all, i as int, undecoded());
            crate::framework::lemma_marking_is_monotonic(before, meta@.failed);
        }
        let ghost held = records(out@);
        match item {
            Some(data) => {
                assert(rest[0] == Some(data@));
                let mut own = meta.clone();
                own.add_source(":");
                push_index(&mut own, i);
                proof {
                    reveal_strlit(":");
                    assert(":"@ =~= seq![':']);
                }
                out.push(FlowFile { data, meta: own });
                assert(records(out@) =~= held.push(out@[out@.len() - 1]@));
            },
            None => {
                assert(rest[0] is None);
                meta.mark_failed(flags);
                assert(records(out@) =~= held);
            },
        }
        i += 1;
    }
    assert(all.take(i as int) =~= all);
    out
}

/// Appends the position `i` to a record's provenance.
fn push_index(meta: &mut FlowFileMeta, i: usize)
    ensures
        final(meta)@.source == old(meta)@.source + decimal_text(i as nat),
        final(meta)@.failed == old(meta)@.failed,
{
    let mut digits = String::new();
    push_decimal(&mut digits, i);
    assert(digits@ =~= decimal_text(i as nat));
    meta.add_source(digits.as_str());
}

/// A closing stage that drops what it is given.
pub struct Nullify<A> {
    pub marker: PhantomData<A>,
}

impl<A> From<Vec<String>> for Nullify<A> {
    /// The stage; it ignores its arguments.
    fn from(_args: Vec<String>) -> (out: Self) {
        Self { marker: PhantomData }
    }
}

impl<A> FromSpecImpl<Vec<String>> for Nullify<A> {
    open spec fn obeys_from_spec() -> bool {
        true
    }

    open spec fn from_spec(_args: Vec<String>) -> Self {
        Self { marker: PhantomData }
    }
}

impl<A> FromArgs for Nullify<A> {
    /// Any arguments are accepted.
    open spec fn accepts(args: Seq<String>) -> bool {
        true
    }

    open spec fn built(args: Vec<String>) -> Self {
        Self { marker: PhantomData }
    }

    fn from_args(args: Vec<String>) -> (out: Option<Self>) {
        Some(Self::from(args))
    }
}

impl<A> CloseTransform for Nullify<A> {
    type Input = A;

    fn close(&self, _input: FlowFile<A>) {
    }
}

/// A stage that hands each record on as it came.
pub struct Identity<A> {
    pub marker: PhantomData<A>,
}

impl<A> Default for Identity<A> {
    fn default() -> (out: Self)
        ensures
            out == (Self { marker: PhantomData }),
    {
        Self { marker: PhantomData }
    }
}

impl<A> From<Vec<String>> for Identity<A> {
    /// The stage; it ignores its arguments.
    fn from(_args: Vec<String>) -> (out: Self) {
        Self { marker: PhantomData }
    }
}

impl<A> FromSpecImpl<Vec<String>> for Identity<A> {
    open spec fn obeys_from_spec() -> bool {
        true
    }

    open spec fn from_spec(_args: Vec<String>) -> Self {
        Self { marker: PhantomData }
    }
}

impl<A> FromArgs for Identity<A> {
    /// Any arguments are accepted.
    open spec fn accepts(args: Seq<String>) -> bool {
        true
    }

    open spec fn built(args: Vec<String>) -> Self {
        Self { marker: PhantomData }
    }

    fn from_args(args: Vec<String>) -> (out: Option<Self>) {
        Some(Self::from(args))
    }
}

impl<A: View> Transform for Identity<A> {
    type Input = A;

    type Output = A;

    open spec fn outputs(&self, input: Record<A::V>) -> Seq<Record<A::V>> {
        seq![input]
    }

    open spec fn fails(&self, input: Record<A::V>) -> bool {
        false
    }

    proof fn lemma_outputs_keep_unit(&self, input: Record<A::V>) {
    }

    fn transform(&self, input: FlowFile<A>, flags: &mut FailureFlags) -> (out: Vec<FlowFile<A>>) {
        let mut out: Vec<FlowFile<A>> = Vec::new();
        out.push(input);
        assert(records(out@) =~= seq![input@]);
        out
    }
}

/// The byte sequences of a list of byte strings.
pub open spec fn byte_texts(list: Seq<Vec<u8>>) -> Seq<Seq<u8>> {
    Seq::new(list.len(), |i: int| list[i]@)
}

/// The pieces of `bytes` between its line feeds; there is one more piece than
/// there are line feeds.
pub open spec fn pieces(bytes: Seq<u8>) -> Seq<Seq<u8>>
    decreases bytes.len(),
{
    if bytes.len() == 0 {
        seq![Seq::empty()]
    } else {
        let init = pieces(bytes.drop_last());
        if bytes.last() == 10 {
            init.push(Seq::empty())
        } else {
            init.update(init.len() - 1, init.last().push(bytes.last()))
        }
    }
}

/// A piece without the carriage return at its end, if it has one.
pub open spec fn chomp(piece: Seq<u8>) -> Seq<u8> {
    if piece.len() > 0 && piece.last() == 13 {
        piece.drop_last()
    } else {
        piece
    }
}

/// Each piece chomped.
pub open spec fn chomped(list: Seq<Seq<u8>>) -> Seq<Seq<u8>> {
    Seq::new(list.len(), |i: int| chomp(list[i]))
}

/// The lines of `bytes`. A line ends with a line feed, or with a carriage
/// return and a line feed, neither of which belongs to it; what follows the
/// last line feed is a line too, as it stands, unless it is empty.
pub open spec fn lines_of(bytes: Seq<u8>) -> Seq<Seq<u8>> {
    let all = pieces(bytes);
    if all.last().len() > 0 {
        chomped(all.drop_last()).push(all.last())
    } else {
        chomped(all.drop_last())
    }
}

/// Splits `bytes` into its lines.
pub fn split_lines(bytes: &Vec<u8>) -> (out: Vec<Vec<u8>>)
    ensures
        byte_texts(out@) == lines_of(bytes@),
{
    let mut out: Vec<Vec<u8>> = Vec::new();
    let mut current: Vec<u8> = Vec::new();
    let mut i: usize = 0;
    assert(bytes@.take(0) =~= Seq::empty());
    assert(byte_texts(out@) =~= chomped(pieces(bytes@.take(0)).drop_last()));
    while i < bytes.len()
        invariant
            i <= bytes.len(),
            pieces(bytes@.take(i as int)).len() > 0,
            byte_texts(out@) == chomped(pieces(bytes@.take(i as int)).drop_last()),
            current@ == pieces(bytes@.take(i as int)).last(),
        decreases bytes.len() - i,
    {
        let b = bytes[i];
        let ghost init = pieces(bytes@.take(i as int));
        proof {
            assert(bytes@.take(i + 1).drop_last() =~= bytes@.take(i as int));
            assert(bytes@.take(i + 1).last() == b);
        }
        let ghost held = byte_texts(out@);
        if b == 10 {
            let n = current.len();
            if n > 0 && current[n - 1] == 13 {
                current.pop();
            }
            assert(current@ =~= chomp(init.last()));
            let ghost line = current@;
            out.push(current);
            current = Vec::new();
            proof {
                let next = pieces(bytes@.take(i + 1));
                assert(next == init.push(Seq::empty()));
                assert(next.drop_last() =~= init);
                assert(byte_texts(out@) =~= held.push(line));
                assert(chomped(init) =~= chomped(init.drop_last()).push(chomp(init.last())));
            }
        } else {
            current.push(b);
            proof {
                let next = pieces(bytes@.take(i + 1));
                assert(next == init.update(init.len() - 1, init.last().push(b)));
                assert(next.drop_last() =~= init.drop_last());
            }
        }
        i += 1;
    }
    assert(bytes@.take(i as int) =~= bytes@);
    if current.len() > 0 {
        let ghost held = byte_texts(out@);
        out.push(current);
        assert(byte_texts(out@) =~= held.push(current@));
    }
    out
}

/// `String::from_utf8`: the text that `bytes` encode, where they are valid
/// UTF-8, and `None` where they are not.
#[verifier::external_body]
fn decode_text(bytes: &Vec<u8>) -> (out: Option<String>)
    ensures
        out is Some <==> valid_utf8(bytes@),
        out matches Some(s) ==> s@ == decode_utf8(bytes@),
{
    match String::from_utf8(bytes.clone()) {
        Ok(s) => Some(s),
        Err(_) => None,
    }
}

/// Each line decoded, `None` standing for a line that is not valid UTF-8.
pub open spec fn decoded(lines: Seq<Seq<u8>>) -> Seq<Option<Seq<char>>> {
    Seq::new(
        lines.len(),
        |i: int|
            if valid_utf8(lines[i]) {
                Some(decode_utf8(lines[i]))
            } else {
                None
            },
    )
}

/// Decodes each of `lines`.
pub fn decode_lines(lines: &Vec<Vec<u8>>) -> (out: Vec<Option<String>>)
    ensures
        item_views(out@) == decoded(byte_texts(lines@)),
{
    let mut out: Vec<Option<String>> = Vec::new();
    let mut i: usize = 0;
    while i < lines.len()
        invariant
            i <= lines.len(),
            out.len() == i,
            item_views(out@) =~= decoded(byte_texts(lines@)).take(i as int),
        decreases lines.len() - i,
    {
        let ghost held = item_views(out@);
        let item = decode_text(&lines[i]);
        out.push(item);
        proof {
            let want = decoded(byte_texts(lines@));
            assert(byte_texts(lines@)[i as int] == lines@[i as int]@);
            assert(item_views(out@)[i as int] == want[i as int]);
            assert(item_views(out@) =~= held.push(want[i as int]));
        }
        i += 1;
    }
    out
}

/// Takes a record apart.
fn unwrap_record<T: View>(input: FlowFile<T>) -> (out: (T, FlowFileMeta))
    ensures
        out.0 == input.data,
        out.1 == input.meta,
{
    let FlowFile { data, meta } = input;
    (data, meta)
}

/// A stage that splits a file's content into its lines of text.
pub struct Lines {}

impl From<Vec<String>> for Lines {
    /// The stage; it ignores its arguments.
    fn from(_args: Vec<String>) -> (out: Self) {
        Lines {}
    }
}

impl FromSpecImpl<Vec<String>> for Lines {
    open spec fn obeys_from_spec() -> bool {
        true
    }

    open spec fn from_spec(_args: Vec<String>) -> Self {
        Lines {}
    }
}

impl FromArgs for Lines {
    /// Any arguments are accepted.
    open spec fn accepts(args: Seq<String>) -> bool {
        true
    }

    open spec fn built(args: Vec<String>) -> Self {
        Lines {}
    }

    fn from_args(args: Vec<String>) -> (out: Option<Self>) {
        Some(Self::from(args))
    }
}

impl Transform for Lines {
    type Input = Vec<u8>;

    type Output = String;

    /// One record for each line that is valid UTF-8, in order, its provenance
    /// extended by the line's position among all lines.
    open spec fn outputs(&self, input: Record<Seq<u8>>) -> Seq<Record<Seq<char>>> {
        numbered(
            decoded(lines_of(input.data)),
            Lineage { source: input.source, failed: input.failed },
        )
    }

    /// Some line is not valid UTF-8.
    open spec fn fails(&self, input: Record<Seq<u8>>) -> bool {
        any_undecoded(decoded(lines_of(input.data)))
    }

    proof fn lemma_outputs_keep_unit(&self, input: Record<Seq<u8>>) {
        lemma_numbered_keep_unit(
            decoded(lines_of(input.data)),
            Lineage { source: input.source, failed: input.failed },
        );
    }

    fn transform(&self, input: FlowFile<Vec<u8>>, flags: &mut FailureFlags) -> (out: Vec<
        FlowFile<String>,
    >) {
        let (data, meta) = unwrap_record(input);
        let lines = split_lines(&data);
        let items = decode_lines(&lines);
        number_records(items, meta, flags)
    }
}

/// One row of a table: its fields in order.
#[derive(Debug)]
pub struct Row {
    pub fields: Vec<String>,
}

impl View for Row {
    type V = Seq<Seq<char>>;

    open spec fn view(&self) -> Seq<Seq<char>> {
        texts(self.fields@)
    }
}

/// The rows that a CSV reader with default settings finds in `bytes`, the
/// header row left out; `None` stands for a row that it reports as an error.
pub uninterp spec fn csv_rows(bytes: Seq<u8>) -> Seq<Option<Seq<Seq<char>>>>;

/// `csv::Reader::from_reader` and `into_records` on a byte slice: every item
/// that the reader yields, in order, a record as its fields and an error as
/// `None`. The result depends on the bytes alone.
#[verifier::external_body]
fn read_rows(bytes: &Vec<u8>) -> (out: Vec<Option<Row>>)
    ensures
        item_views(out@) == csv_rows(bytes@),
{
    let mut out = Vec::new();
    for item in csv::Reader::from_reader(bytes.as_slice()).into_records() {
        out.push(
            match item {
                Ok(record) => Some(Row { fields: record.iter().map(str::to_string).collect() }),
                Err(_) => None,
            },
        );
    }
    out
}

/// A stage that reads a file's content as a table and emits its rows.
pub struct Csv {}

impl From<Vec<String>> for Csv {
    /// The stage; it ignores its arguments.
    fn from(_args: Vec<String>) -> (out: Self) {
        Csv {}
    }
}

impl FromSpecImpl<Vec<String>> for Csv {
    open spec fn obeys_from_spec() -> bool {
        true
    }

    open spec fn from_spec(_args: Vec<String>) -> Self {
        Csv {}
    }
}

impl FromArgs for Csv {
    /// Any arguments are accepted.
    open spec fn accepts(args: Seq<String>) -> bool {
        true
    }

    open spec fn built(args: Vec<String>) -> Self {
        Csv {}
    }

    fn from_args(args: Vec<String>) -> (out: Option<Self>) {
        Some(Self::from(args))
    }
}

impl Transform for Csv {
    type Input = Vec<u8>;

    type Output = Row;

    /// One record for each row that the reader accepts, in order, its
    /// provenance extended by the row's position among all rows.
    open spec fn outputs(&self, input: Record<Seq<u8>>) -> Seq<Record<Seq<Seq<char>>>> {
        numbered(csv_rows(input.data), Lineage { source: input.source, failed: input.failed })
    }

    /// The reader reports some row as an error.
    open spec fn fails(&self, input: Record<Seq<u8>>) -> bool {
        any_undecoded(csv_rows(input.data))
    }

    proof fn lemma_outputs_keep_unit(&self, input: Record<Seq<u8>>) {
        lemma_numbered_keep_unit(
            csv_rows(input.data),
            Lineage { source: input.source, failed: input.failed },
        );
    }

    fn transform(&self, input: FlowFile<Vec<u8>>, flags: &mut FailureFlags) -> (out: Vec<
        FlowFile<Row>,
    >) {
        let (data, meta) = unwrap_record(input);
        let items = read_rows(&data);
        number_records(items, meta, flags)
    }
}

/// The text that formatting for debugging prints for a string: the string
/// between double quotes, with what needs it escaped.
pub uninterp spec fn text_debug(text: Seq<char>) -> Seq<char>;

/// The `Debug` formatting of `str`. The result depends on the text alone.
#[verifier::external_body]
fn debug_text(text: &String) -> (out: String)
    ensures
        out@ == text_debug(text@),
{
    format!("{:?}", text.as_str())
}

/// The debugging texts of `fields`, a comma and a space between two.
pub open spec fn debug_list(fields: Seq<Seq<char>>) -> Seq<char>
    decreases fields.len(),
{
    if fields.len() == 0 {
        Seq::empty()
    } else if fields.len() == 1 {
        text_debug(fields[0])
    } else {
        debug_list(fields.drop_last()) + ", "@ + text_debug(fields.last())
    }
}

/// The text that formatting for debugging prints for a row: the type's name
/// and, in round and square brackets, the debugging texts of the fields.
pub open spec fn row_text(fields: Seq<Seq<char>>) -> Seq<char> {
    "StringRecord(["@ + debug_list(fields) + "])"@
}

/// The `Debug` formatting of `csv::StringRecord`, on the record that holds
/// the fields of `row`: it prints `StringRecord(`, then the fields as a
/// list of strings is printed for debugging, then `)`.
#[verifier::external_body]
fn debug_row(row: &Row) -> (out: String)
    ensures
        out@ == row_text(row@),
{
    format!("{:?}", csv::StringRecord::from(row.fields.clone()))
}

/// A stage that replaces a record's payload by its debugging text.
pub struct ToString<A> {
    pub marker: PhantomData<A>,
}

impl<A> Default for ToString<A> {
    fn default() -> (out: Self)
        ensures
            out == (Self { marker: PhantomData }),
    {
        Self { marker: PhantomData }
    }
}

impl<A> From<Vec<String>> for ToString<A> {
    /// The stage; it ignores its arguments.
    fn from(_args: Vec<String>) -> (out: Self) {
        Self { marker: PhantomData }
    }
}

impl<A> FromSpecImpl<Vec<String>> for ToString<A> {
    open spec fn obeys_from_spec() -> bool {
        true
    }

    open spec fn from_spec(_args: Vec<String>) -> Self {
        Self { marker: PhantomData }
    }
}

impl<A> FromArgs for ToString<A> {
    /// Any arguments are accepted.
    open spec fn accepts(args: Seq<String>) -> bool {
        true
    }

    open spec fn built(args: Vec<String>) -> Self {
        Self { marker: PhantomData }
    }

    fn from_args(args: Vec<String>) -> (out: Option<Self>) {
        Some(Self::from(args))
    }
}

impl Transform for ToString<Row> {
    type Input = Row;

    type Output = String;

    open spec fn outputs(&self, input: Record<Seq<Seq<char>>>) -> Seq<Record<Seq<char>>> {
        seq![Record { data: row_text(input.data), source: input.source, failed: input.failed }]
    }

    open spec fn fails(&self, input: Record<Seq<Seq<char>>>) -> bool {
        false
    }

    proof fn lemma_outputs_keep_unit(&self, input: Record<Seq<Seq<char>>>) {
    }

    fn transform(&self, input: FlowFile<Row>, flags: &mut FailureFlags) -> (out: Vec<
        FlowFile<String>,
    >) {
        let (data, meta) = unwrap_record(input);
        let text = debug_row(&data);
        let mut out: Vec<FlowFile<String>> = Vec::new();
        out.push(FlowFile { data: text, meta });
        assert(records(out@) =~= self.outputs(input@));
        out
    }
}

impl Transform for ToString<String> {
    type Input = String;

    type Output = String;

    open spec fn outputs(&self, input: Record<Seq<char>>) -> Seq<Record<Seq<char>>> {
        seq![Record { data: text_debug(input.data), source: input.source, failed: input.failed }]
    }

    open spec fn fails(&self, input: Record<Seq<char>>) -> bool {
        false
    }

    proof fn lemma_outputs_keep_unit(&self, input: Record<Seq<char>>) {
    }

    fn transform(&self, input: FlowFile<String>, flags: &mut FailureFlags) -> (out: Vec<
        FlowFile<String>,
    >) {
        let (data, meta) = unwrap_record(input);
        let text = debug_text(&data);
        let mut out: Vec<FlowFile<String>> = Vec::new();
        out.push(FlowFile { data: text, meta });
        assert(records(out@) =~= self.outputs(input@));
        out
    }
}

/// A file as it was read: its path and its content.
#[derive(Debug)]
pub struct FileImage {
    pub path: String,
    pub bytes: Vec<u8>,
}

/// A `FileImage` as plain values.
pub struct FileImageView {
    pub path: Seq<char>,
    pub bytes: Seq<u8>,
}

impl View for FileImage {
    type V = FileImageView;

    open spec fn view(&self) -> FileImageView {
        FileImageView { path: self.path@, bytes: self.bytes@ }
    }
}

/// What a gzip decoder reads from `bytes` up to the end of the stream, or
/// `None` where it reports an error on the way.
pub uninterp spec fn gunzip(bytes: Seq<u8>) -> Option<Seq<u8>>;

/// `flate2::read::GzDecoder::new` on a byte slice, read to its end: the
/// decoded content, or `None` where the decoder reports an error. The result
/// depends on the bytes alone.
#[verifier::external_body]
fn inflate(bytes: &Vec<u8>) -> (out: Option<Vec<u8>>)
    ensures
        out is Some <==> gunzip(bytes@) is Some,
        out matches Some(content) ==> gunzip(bytes@) == Some(content@),
{
    let mut content = Vec::new();
    match flate2::read::GzDecoder::new(bytes.as_slice()).read_to_end(&mut content) {
        Ok(_) => Some(content),
        Err(_) => None,
    }
}

/// The ending of a path that marks a compressed file.
pub open spec fn gz_suffix() -> Seq<char> {
    ".gz"@
}

/// The content of a file, decompressed where its path ends in `.gz`; `None`
/// where such a file cannot be decompressed.
pub open spec fn unpacked(file: FileImageView) -> Option<Seq<u8>> {
    if has_suffix(file.path, gz_suffix()) {
        gunzip(file.bytes)
    } else {
        Some(file.bytes)
    }
}

/// A stage that turns a file into its content.
pub struct Unpack {}

impl From<Vec<String>> for Unpack {
    /// The stage; it ignores its arguments.
    fn from(_args: Vec<String>) -> (out: Self) {
        Unpack {}
    }
}

impl FromSpecImpl<Vec<String>> for Unpack {
    open spec fn obeys_from_spec() -> bool {
        true
    }

    open spec fn from_spec(_args: Vec<String>) -> Self {
        Unpack {}
    }
}

impl FromArgs for Unpack {
    /// Any arguments are accepted.
    open spec fn accepts(args: Seq<String>) -> bool {
        true
    }

    open spec fn built(args: Vec<String>) -> Self {
        Unpack {}
    }

    fn from_args(args: Vec<String>) -> (out: Option<Self>) {
        Some(Self::from(args))
    }
}

impl Transform for Unpack {
    type Input = FileImage;

    type Output = Vec<u8>;

    /// One record with the content, its provenance extended by the file's
    /// path; none where the file cannot be decompressed.
    open spec fn outputs(&self, input: Record<FileImageView>) -> Seq<Record<Seq<u8>>> {
        match unpacked(input.data) {
            Some(content) => seq![
                Record {
                    data: content,
                    source: input.source + input.data.path,
                    failed: input.failed,
                },
            ],
            None => Seq::empty(),
        }
    }

    /// The file cannot be decompressed.
    open spec fn fails(&self, input: Record<FileImageView>) -> bool {
        unpacked(input.data) is None
    }

    proof fn lemma_outputs_keep_unit(&self, input: Record<FileImageView>) {
    }

    fn transform(&self, input: FlowFile<FileImage>, flags: &mut FailureFlags) -> (out: Vec<
        FlowFile<Vec<u8>>,
    >) {
        let (data, meta) = unwrap_record(input);
        let mut meta = meta;
        let mut out: Vec<FlowFile<Vec<u8>>> = Vec::new();
        let content = if ends_with(data.path.as_str(), ".gz") {
            match inflate(&data.bytes) {
                Some(content) => content,
                None => {
                    meta.mark_failed(flags);
                    assert(records(out@) =~= self.outputs(input@));
                    return out;
                },
            }
        } else {
            data.bytes
        };
        meta.add_source(data.path.as_str());
        out.push(FlowFile { data: content, meta });
        assert(records(out@) =~= self.outputs(input@));
        out
    }
}

/// A payload that can be searched for a text.
pub trait CheckContains: View + Sized {
    /// Whether a payload holds `needle`.
    spec fn found(payload: Self::V, needle: Seq<char>) -> bool;

    fn contains(&self, needle: &str) -> (b: bool)
        ensures
            b == Self::found(self@, needle@),
    ;
}

impl CheckContains for String {
    /// The needle stands in the text.
    open spec fn found(payload: Seq<char>, needle: Seq<char>) -> bool {
        has_substring(payload, needle)
    }

    fn contains(&self, needle: &str) -> (b: bool) {
        contains_text(self.as_str(), needle)
    }
}

impl CheckContains for Vec<u8> {
    /// The bytes are valid UTF-8, and the needle stands in the text they encode.
    open spec fn found(payload: Seq<u8>, needle: Seq<char>) -> bool {
        valid_utf8(payload) && has_substring(decode_utf8(payload), needle)
    }

    fn contains(&self, needle: &str) -> (b: bool) {
        match decode_text(self) {
            Some(text) => contains_text(text.as_str(), needle),
            None => false,
        }
    }
}

impl CheckContains for Row {
    /// The needle stands in one of the fields.
    open spec fn found(payload: Seq<Seq<char>>, needle: Seq<char>) -> bool {
        exists|k: int| 0 <= k < payload.len() && has_substring(#[trigger] payload[k], needle)
    }

    fn contains(&self, needle: &str) -> (b: bool) {
        let mut k: usize = 0;
        while k < self.fields.len()
            invariant
                k <= self.fields.len(),
                forall|j: int| 0 <= j < k ==> !has_substring(#[trigger] self@[j], needle@),
            decreases self.fields.len() - k,
        {
            assert(self@[k as int] == self.fields@[k as int]@);
            if contains_text(self.fields[k].as_str(), needle) {
                return true;
            }
            k += 1;
        }
        false
    }
}

/// A stage that lets through the records whose payload holds a given text.
pub struct Contains<R> {
    pub needle: String,
    pub marker: PhantomData<R>,
}

impl<R> Contains<R> {
    /// The stage that looks for `needle`.
    pub fn new(needle: String) -> (out: Self)
        ensures
            out == (Self { needle, marker: PhantomData }),
    {
        Self { needle, marker: PhantomData }
    }
}

impl<R> FromArgs for Contains<R> {
    /// There is a first argument.
    open spec fn accepts(args: Seq<String>) -> bool {
        args.len() > 0
    }

    /// The stage that looks for the first argument.
    open spec fn built(args: Vec<String>) -> Self {
        Self { needle: args@[0], marker: PhantomData }
    }

    fn from_args(args: Vec<String>) -> (out: Option<Self>) {
        let mut args = args;
        if args.len() == 0 {
            return None;
        }
        Some(Self::new(args.remove(0)))
    }
}

impl<S: CheckContains> Transform for Contains<S> {
    type Input = S;

    type Output = S;

    /// The record itself where its payload holds the needle, and nothing
    /// where it does not.
    open spec fn outputs(&self, input: Record<S::V>) -> Seq<Record<S::V>> {
        if S::found(input.data, self.needle@) {
            seq![input]
        } else {
            Seq::empty()
        }
    }

    open spec fn fails(&self, input: Record<S::V>) -> bool {
        false
    }

    proof fn lemma_outputs_keep_unit(&self, input: Record<S::V>) {
    }

    fn transform(&self, input: FlowFile<S>, flags: &mut FailureFlags) -> (out: Vec<FlowFile<S>>) {
        let mut out: Vec<FlowFile<S>> = Vec::new();
        if input.data.contains(self.needle.as_str()) {
            out.push(input);
        }
        assert(records(out@) =~= self.outputs(input@));
        out
    }
}

/// The starting stage: file paths found by glob patterns. The stage holds the
/// patterns and, once they were expanded, what the expansion found: for each
/// pattern in order its matches in order, `None` standing for an entry that
/// could not be read.
pub struct Glob {
    pub patterns: Vec<String>,
    pub found: Option<Vec<Option<String>>>,
}

impl From<Vec<String>> for Glob {
    /// The stage over the patterns `args`, not expanded yet.
    fn from(args: Vec<String>) -> (out: Self) {
        Glob { patterns: args, found: None }
    }
}

impl FromSpecImpl<Vec<String>> for Glob {
    open spec fn obeys_from_spec() -> bool {
        true
    }

    open spec fn from_spec(args: Vec<String>) -> Self {
        Glob { patterns: args, found: None }
    }
}

impl FromArgs for Glob {
    /// Any arguments are accepted.
    open spec fn accepts(args: Seq<String>) -> bool {
        true
    }

    open spec fn built(args: Vec<String>) -> Self {
        Glob { patterns: args, found: None }
    }

    fn from_args(args: Vec<String>) -> (out: Option<Self>) {
        Some(Self::from(args))
    }
}

/// The entries that are present, in order.
pub open spec fn present(items: Seq<Option<Seq<char>>>) -> Seq<Seq<char>>
    decreases items.len(),
{
    if items.len() == 0 {
        Seq::empty()
    } else {
        match items.last() {
            Some(path) => present(items.drop_last()).push(path),
            None => present(items.drop_last()),
        }
    }
}

/// New records around `paths`: empty provenance, no unit.
pub open spec fn fresh(paths: Seq<Seq<char>>) -> Seq<Record<Seq<char>>> {
    Seq::new(paths.len(), |i: int| Record { data: paths[i], source: Seq::empty(), failed: None })
}

impl Glob {
    /// The stage with what the expansion of its patterns found.
    pub fn resolve(self, found: Vec<Option<String>>) -> (out: Self)
        ensures
            out.patterns == self.patterns,
            out.found == Some(found),
    {
        Glob { patterns: self.patterns, found: Some(found) }
    }

    /// Starts the run if the patterns were expanded, and tells so if not.
    pub fn try_start(self) -> (out: Option<Vec<FlowFile<String>>>)
        ensures
            out is Some <==> self.found is Some,
            out matches Some(list) ==> records(list@) == self.emitted(),
    {
        if self.found.is_some() {
            Some(self.start())
        } else {
            None
        }
    }
}

impl StartTransform for Glob {
    type Output = String;

    /// The patterns were expanded.
    open spec fn ready(&self) -> bool {
        self.found is Some
    }

    /// One new record for each path that was found, in order.
    open spec fn emitted(&self) -> Seq<Record<Seq<char>>> {
        match self.found {
            Some(found) => fresh(present(item_views(found@))),
            None => Seq::empty(),
        }
    }

    fn start(self) -> (out: Vec<FlowFile<String>>) {
        let mut out: Vec<FlowFile<String>> = Vec::new();
        let found = match self.found {
            Some(found) => found,
            None => {
                assert(records(out@) =~= Seq::empty());
                return out;
            },
        };
        let ghost all = item_views(found@);
        let mut i: usize = 0;
        assert(all.take(0) =~= Seq::empty());
        assert(records(out@) =~= fresh(present(all.take(0))));
        while i < found.len()
            invariant
                i <= found.len(),
                all == item_views(found@),
                records(out@) == fresh(present(all.take(i as int))),
            decreases found.len() - i,
        {
            proof {
                assert(all.take(i + 1).drop_last() =~= all.take(i as int));
                assert(all.take(i + 1).last() == all[i as int]);
            }
            let ghost held = records(out@);
            match &found[i] {
                Some(path) => {
                    let record = FlowFile::new(path.clone());
                    out.push(record);
                    assert(records(out@) =~= held.push(record@));
                    assert(records(out@) =~= fresh(present(all.take(i + 1))));
                },
                None => {
                    assert(records(out@) =~= fresh(present(all.take(i + 1))));
                },
            }
            i += 1;
        }
        assert(all.take(i as int) =~= all);
        out
    }
}

/// A starting stage over files that were read already: what the start of a
/// run found, each record now holding its file's content.
pub struct Opened {
    pub files: Vec<FlowFile<FileImage>>,
}

impl StartTransform for Opened {
    type Output = FileImage;

    open spec fn ready(&self) -> bool {
        true
    }

    /// The files, as they are.
    open spec fn emitted(&self) -> Seq<Record<FileImageView>> {
        records(self.files@)
    }

    fn start(self) -> (out: Vec<FlowFile<FileImage>>) {
        self.files
    }
}

/// What goes into an archive for one record of text: the entry's name, the
/// payload, and the payload's size as the entry's header states it.
#[derive(Debug)]
pub struct ArchiveEntry {
    pub name: String,
    pub size: u64,
    pub data: Vec<u8>,
}

/// The archive entry of a record of text: named by the record's provenance,
/// holding the text in UTF-8.
pub fn archive_entry(input: FlowFile<String>) -> (out: ArchiveEntry)
    ensures
        out.name@ == input@.source,
        out.data@ == encode_utf8(input@.data),
        out.size == out.data@.len(),
{
    let (text, meta) = unwrap_record(input);
    let data = text.as_str().as_bytes_vec();
    let size = data.len() as u64;
    ArchiveEntry { name: String::from_str(meta.source()), size, data }
}

/// Whether `file` is read as it is and every line of it is valid UTF-8.
pub open spec fn plain_text_file(file: FileImageView) -> bool {
    !has_suffix(file.path, gz_suffix()) && !any_undecoded(decoded(lines_of(file.bytes)))
}

/// The number of lines that `files` hold, all together.
pub open spec fn lines_in(files: Seq<Record<FileImageView>>) -> nat
    decreases files.len(),
{
    if files.len() == 0 {
        0
    } else {
        lines_in(files.drop_last()) + lines_of(files.last().data.bytes).len()
    }
}

/// Unpacking a plain text file and splitting it gives one record for each
/// of its lines.
pub proof fn lemma_one_record_per_line(file: Record<FileImageView>)
    requires
        plain_text_file(file.data),
    ensures
        (Chain { first: Unpack {  }, next: Lines {  } }).outputs(file).len() == lines_of(
            file.data.bytes,
        ).len(),
{
    let unpack = Unpack {  };
    let lines = Lines {  };
    let mids = unpack.outputs(file);
    assert(mids.len() == 1);
    assert(mids.drop_last() =~= Seq::empty());
    assert(flat_outputs(&lines, mids.drop_last()) =~= Seq::empty());
    assert(flat_outputs(&lines, mids) =~= lines.outputs(mids[0]));
    lemma_numbered_length(
        decoded(lines_of(file.data.bytes)),
        Lineage { source: mids[0].source, failed: mids[0].failed },
    );
}

/// A run of plain text files through unpacking and splitting counts the
/// lines of the files: as many records reach the close as the files hold
/// lines, all together. Three files of four lines count twelve.
pub proof fn lemma_run_counts_lines(files: Seq<Record<FileImageView>>, first: nat)
    requires
        forall|i: int| 0 <= i < files.len() ==> plain_text_file((#[trigger] files[i]).data),
    ensures
        run_count(&(Chain { first: Unpack {  }, next: Lines {  } }), files, first) == lines_in(
            files,
        ),
    decreases files.len(),
{
    if files.len() > 0 {
        assert forall|i: int| 0 <= i < files.drop_last().len() implies plain_text_file(
            (#[trigger] files.drop_last()[i]).data,
        ) by {
            assert(files.drop_last()[i] == files[i]);
        }
        lemma_run_counts_lines(files.drop_last(), first);
        assert(plain_text_file(files[files.len() - 1].data));
        lemma_one_record_per_line(entered(files.last(), (first + files.len() - 1) as usize));
    }
}

/// The record that unpacking makes of a file that is read as it is.
pub open spec fn unpacked_record(file: Record<FileImageView>) -> Record<Seq<u8>> {
    Record { data: file.data.bytes, source: file.source + file.data.path, failed: file.failed }
}

/// What a file adds to the count where lines go down the first branch and
/// rows down the second: its lines, its rows, or nothing, by the branch that
/// the junction names for its content.
pub open spec fn lines_or_rows<J: Junction<Input = Vec<u8>>>(
    junction: &J,
    file: Record<FileImageView>,
) -> nat {
    match branch_of(junction.branch(unpacked_record(file))) {
        Some(Branch::Zero) => lines_of(file.data.bytes).len(),
        Some(Branch::One) => csv_rows(file.data.bytes).len(),
        None => 0,
    }
}

/// Whether a file is read as it is, and whatever its branch reads in it can
/// be decoded: every line on the first branch, every row on the second.
pub open spec fn decodable_on_its_branch<J: Junction<Input = Vec<u8>>>(
    junction: &J,
    file: Record<FileImageView>,
) -> bool {
    !has_suffix(file.data.path, gz_suffix()) && match branch_of(
        junction.branch(unpacked_record(file)),
    ) {
        Some(Branch::Zero) => !any_undecoded(decoded(lines_of(file.data.bytes))),
        Some(Branch::One) => !any_undecoded(csv_rows(file.data.bytes)),
        None => true,
    }
}

/// The lines and rows that `files` add to the count, all together, the
/// first of them entering as the unit whose flag is at `first`.
pub open spec fn lines_and_rows_in<J: Junction<Input = Vec<u8>>>(
    junction: &J,
    files: Seq<Record<FileImageView>>,
    first: nat,
) -> nat
    decreases files.len(),
{
    if files.len() == 0 {
        0
    } else {
        lines_and_rows_in(junction, files.drop_last(), first) + lines_or_rows(
            junction,
            entered(files.last(), (first + files.len() - 1) as usize),
        )
    }
}

/// Printing rows keeps their number: one text for each row.
pub proof fn lemma_one_text_per_row(stage: &ToString<Row>, rows: Seq<Record<Seq<Seq<char>>>>)
    ensures
        flat_outputs(stage, rows).len() == rows.len(),
    decreases rows.len(),
{
    if rows.len() > 0 {
        lemma_one_text_per_row(stage, rows.drop_last());
    }
}

/// A run that sends the lines of some files down one branch and the rows of
/// the others down the other counts them all: as many records reach a close
/// as the files of the first branch hold lines and those of the second hold
/// rows, where all of them can be decoded.
pub proof fn lemma_branching_run_counts_lines_and_rows<J: Junction<Input = Vec<u8>>>(
    junction: &J,
    files: Seq<Record<FileImageView>>,
    first: nat,
)
    requires
        forall|i: int|
            0 <= i < files.len() ==> decodable_on_its_branch(
                junction,
                entered(#[trigger] files[i], (first + i) as usize),
            ),
    ensures
        branching_count(
            &(Unpack {  }),
            junction,
            &(Lines {  }),
            &(Chain { first: Csv {  }, next: ToString::<Row> { marker: PhantomData } }),
            files,
            first,
        ) == lines_and_rows_in(junction, files, first),
    decreases files.len(),
{
    if files.len() > 0 {
        let unpack = Unpack {  };
        let lines = Lines {  };
        let print = ToString::<Row> { marker: PhantomData };
        let rows = Chain { first: Csv {  }, next: print };
        assert forall|i: int| 0 <= i < files.drop_last().len() implies decodable_on_its_branch(
            junction,
            entered(#[trigger] files.drop_last()[i], (first + i) as usize),
        ) by {
            assert(files.drop_last()[i] == files[i]);
        }
        lemma_branching_run_counts_lines_and_rows(junction, files.drop_last(), first);
        let file = entered(files.last(), (first + files.len() - 1) as usize);
        assert(files.last() == files[files.len() - 1]);
        assert(decodable_on_its_branch(junction, file));
        let mids = unpack.outputs(file);
        let content = unpacked_record(file);
        assert(mids =~= seq![content]);
        assert(mids.drop_last() =~= Seq::empty());
        assert(fork_total(junction, &lines, &rows, mids.drop_last()) == 0);
        let origin = Lineage { source: content.source, failed: content.failed };
        match branch_of(junction.branch(content)) {
            Some(Branch::Zero) => {
                lemma_numbered_length(decoded(lines_of(content.data)), origin);
            },
            Some(Branch::One) => {
                lemma_numbered_length(csv_rows(content.data), origin);
                lemma_one_text_per_row(&print, (Csv {  }).outputs(content));
            },
            None => {},
        }
    }
}

} // verus!
