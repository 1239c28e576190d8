//! The TLS 1.3 `Certificate` payload (RFC 8446, 4.4.2) without its
//! handshake header: length-prefixed vectors in big-endian order.
use crate::error::WireError;
use vstd::prelude::*;

verus! {

/// `256` to the power `w`: the bound of a `w`-byte length field.
pub open spec fn pow256(w: nat) -> nat
    decreases w,
{
    if w == 0 {
        1
    } else {
        256 * pow256((w - 1) as nat)
    }
}

/// The unsigned integer that `s` encodes, most significant byte first.
pub open spec fn be_value(s: Seq<u8>) -> nat
    decreases s.len(),
{
    if s.len() == 0 {
        0
    } else {
        be_value(s.drop_last()) * 256 + s.last() as nat
    }
}

/// The low `w` bytes of `v`, most significant first.
pub open spec fn be_bytes(v: nat, w: nat) -> Seq<u8>
    decreases w,
{
    if w == 0 {
        Seq::empty()
    } else {
        be_bytes(v / 256, (w - 1) as nat).push((v % 256) as u8)
    }
}

/// The bounds of the length fields in use.
pub proof fn lemma_pow256_values()
    ensures
        pow256(1) == 0x100,
        pow256(2) == 0x10000,
        pow256(3) == 0x1000000,
        pow256(4) == 0x100000000,
{
    reveal_with_fuel(pow256, 5);
}

pub proof fn lemma_be_bytes_len(v: nat, w: nat)
    ensures
        be_bytes(v, w).len() == w,
    decreases w,
{
    if w > 0 {
        lemma_be_bytes_len(v / 256, (w - 1) as nat);
    }
}

/// Reading back the bytes of a value that fits gives the value.
pub proof fn lemma_be_value_of_bytes(v: nat, w: nat)
    requires
        v < pow256(w),
    ensures
        be_value(be_bytes(v, w)) == v,
    decreases w,
{
    if w > 0 {
        let hi = v / 256;
        assert(hi < pow256((w - 1) as nat)) by (nonlinear_arith)
            requires
                v < 256 * pow256((w - 1) as nat),
                hi == v / 256,
        ;
        lemma_be_value_of_bytes(hi, (w - 1) as nat);
        let s = be_bytes(v, w);
        assert(s.drop_last() =~= be_bytes(hi, (w - 1) as nat));
        assert(v == hi * 256 + v % 256) by (nonlinear_arith)
            requires
                hi == v / 256,
        ;
    }
}

/// Writing out the value of `s` in `s.len()` bytes gives `s` back.
pub proof fn lemma_be_bytes_of_value(s: Seq<u8>)
    ensures
        be_bytes(be_value(s), s.len()) =~= s,
        be_value(s) < pow256(s.len()),
    decreases s.len(),
{
    if s.len() > 0 {
        let d = s.drop_last();
        lemma_be_bytes_of_value(d);
        let v = be_value(s);
        let last = s.last() as nat;
        assert(v / 256 == be_value(d) && v % 256 == last) by (nonlinear_arith)
            requires
                v == be_value(d) * 256 + last,
                last < 256,
        ;
        assert(v < pow256(s.len())) by (nonlinear_arith)
            requires
                v == be_value(d) * 256 + last,
                last < 256,
                be_value(d) < pow256(d.len()),
                pow256(s.len()) == 256 * pow256(d.len()),
        ;
        assert(s =~= d.push(s.last()));
    }
}

/// The `width`-byte big-endian integer at `pos`.
fn read_uint(buf: &[u8], pos: usize, width: usize) -> (r: u64)
    requires
        width <= 3,
        pos + width <= buf@.len(),
    ensures
        r == be_value(buf@.subrange(pos as int, pos + width)),
{
    let mut acc: u64 = 0;
    let mut i: usize = 0;
    while i < width
        invariant
            i <= width <= 3,
            pos + width <= buf.len(),
            acc == be_value(buf@.subrange(pos as int, pos + i)),
            acc < pow256(i as nat),
        decreases width - i,
    {
        let b = buf[pos + i];
        proof {
            let s = buf@.subrange(pos as int, pos + i + 1);
            assert(s.drop_last() =~= buf@.subrange(pos as int, pos + i));
            assert(pow256(i as nat) <= 0x10000) by {
                reveal_with_fuel(pow256, 3);
            }
        }
        assert(acc * 256 + b < 256 * pow256(i as nat)) by (nonlinear_arith)
            requires
                acc < pow256(i as nat),
                b < 256,
        ;
        acc = acc * 256 + b as u64;
        i = i + 1;
    }
    acc
}

/// The bytes `src[from..to]` as a new vector.
pub fn copy_bytes(src: &[u8], from: usize, to: usize) -> (r: Vec<u8>)
    requires
        from <= to <= src@.len(),
    ensures
        r@ == src@.subrange(from as int, to as int),
{
    let mut r: Vec<u8> = Vec::with_capacity(to - from);
    let mut i: usize = from;
    while i < to
        invariant
            from <= i <= to <= src@.len(),
            r@ == src@.subrange(from as int, i as int),
        decreases to - i,
    {
        r.push(src[i]);
        i = i + 1;
        assert(r@ =~= src@.subrange(from as int, i as int));
    }
    r
}

/// Appends all of `src` to `out`.
pub fn append_bytes(out: &mut Vec<u8>, src: &[u8])
    ensures
        final(out)@ == old(out)@ + src@,
{
    let mut i: usize = 0;
    while i < src.len()
        invariant
            i <= src@.len(),
            out@ == old(out)@ + src@.subrange(0, i as int),
        decreases src@.len() - i,
    {
        out.push(src[i]);
        i = i + 1;
        assert(out@ =~= old(out)@ + src@.subrange(0, i as int));
    }
    assert(src@.subrange(0, src@.len() as int) =~= src@);
}

/// One certificate entry as values: the certificate (or identifier) and
/// the opaque extensions block.
pub struct EntryModel {
    pub data: Seq<u8>,
    pub extensions: Seq<u8>,
}

/// A `Certificate` payload as values.
pub struct MessageModel {
    pub request_context: Seq<u8>,
    pub entries: Seq<EntryModel>,
}

/// Reads a vector with a `w`-byte length prefix from the front of `b`:
/// its contents and what follows it.
pub open spec fn read_vec(b: Seq<u8>, w: nat) -> Result<(Seq<u8>, Seq<u8>), WireError> {
    if b.len() < w {
        Err(WireError::ShortHeader)
    } else {
        let len = be_value(b.take(w as int));
        let rest = b.skip(w as int);
        if rest.len() < len {
            Err(WireError::Overflow)
        } else {
            Ok((rest.take(len as int), rest.skip(len as int)))
        }
    }
}

/// Reads one entry from the front of `b`: a 3-byte-length data vector,
/// then a 2-byte-length extensions vector.
pub open spec fn parse_entry(b: Seq<u8>) -> Result<(EntryModel, Seq<u8>), WireError> {
    match read_vec(b, 3) {
        Err(e) => Err(e),
        Ok((data, r1)) => match read_vec(r1, 2) {
            Err(e) => Err(e),
            Ok((extensions, r2)) => Ok((EntryModel { data, extensions }, r2)),
        },
    }
}

pub proof fn lemma_parse_entry_shrinks(b: Seq<u8>)
    ensures
        parse_entry(b) matches Ok((e, rest)) ==> rest.len() + 5 + e.data.len()
            + e.extensions.len() == b.len(),
{
}

/// Reads entries until `b` is used up exactly.
pub open spec fn parse_entries(b: Seq<u8>) -> Result<Seq<EntryModel>, WireError>
    decreases b.len(),
    via parse_entries_decreases
{
    if b.len() == 0 {
        Ok(Seq::empty())
    } else {
        match parse_entry(b) {
            Err(_) => Err(WireError::TruncatedEntry),
            Ok((e, rest)) => match parse_entries(rest) {
                Ok(es) => Ok(seq![e] + es),
                Err(x) => Err(x),
            },
        }
    }
}

#[via_fn]
proof fn parse_entries_decreases(b: Seq<u8>) {
    lemma_parse_entry_shrinks(b);
}

/// Parses a whole `Certificate` payload: a 1-byte-length request context,
/// then a 3-byte-length list of entries, and nothing after it.
pub open spec fn parse_message(b: Seq<u8>) -> Result<MessageModel, WireError> {
    match read_vec(b, 1) {
        Err(e) => Err(e),
        Ok((ctx, r1)) => match read_vec(r1, 3) {
            Err(e) => Err(e),
            Ok((list, r2)) => if r2.len() > 0 {
                Err(WireError::TrailingData)
            } else {
                match parse_entries(list) {
                    Ok(entries) => Ok(MessageModel { request_context: ctx, entries }),
                    Err(e) => Err(e),
                }
            },
        },
    }
}

/// A vector with a `w`-byte length prefix.
pub open spec fn vec_bytes(v: Seq<u8>, w: nat) -> Seq<u8> {
    be_bytes(v.len(), w) + v
}

pub open spec fn entry_bytes(e: EntryModel) -> Seq<u8> {
    vec_bytes(e.data, 3) + vec_bytes(e.extensions, 2)
}

pub open spec fn entries_bytes(es: Seq<EntryModel>) -> Seq<u8>
    decreases es.len(),
{
    if es.len() == 0 {
        Seq::empty()
    } else {
        entry_bytes(es[0]) + entries_bytes(es.skip(1))
    }
}

/// The wire form of a message.
pub open spec fn message_bytes(m: MessageModel) -> Seq<u8> {
    vec_bytes(m.request_context, 1) + be_bytes(entries_bytes(m.entries).len(), 3) + entries_bytes(
        m.entries,
    )
}

/// Both fields of an entry fit their length prefixes.
pub open spec fn entry_fits(e: EntryModel) -> bool {
    e.data.len() < pow256(3) && e.extensions.len() < pow256(2)
}

/// Every length of a message fits its prefix, so that it can be written.
pub open spec fn message_fits(m: MessageModel) -> bool {
    &&& m.request_context.len() < pow256(1)
    &&& forall|i: int| 0 <= i < m.entries.len() ==> entry_fits(#[trigger] m.entries[i])
    &&& entries_bytes(m.entries).len() < pow256(3)
}

/// A vector that reads successfully is its own length prefix and contents.
pub proof fn lemma_read_vec_inverse(b: Seq<u8>, w: nat)
    ensures
        read_vec(b, w) matches Ok((v, rest)) ==> v.len() < pow256(w) && b == vec_bytes(v, w)
            + rest,
{
    if let Ok((v, rest)) = read_vec(b, w) {
        let head = b.take(w as int);
        lemma_be_bytes_of_value(head);
        let tail = b.skip(w as int);
        assert(tail =~= v + rest);
        assert(b =~= vec_bytes(v, w) + rest);
    }
}

/// A vector written with a prefix that fits reads back.
pub proof fn lemma_read_vec_of_bytes(v: Seq<u8>, w: nat, rest: Seq<u8>)
    requires
        v.len() < pow256(w),
    ensures
        read_vec(vec_bytes(v, w) + rest, w) == Ok::<(Seq<u8>, Seq<u8>), WireError>((v, rest)),
{
    let b = vec_bytes(v, w) + rest;
    lemma_be_bytes_len(v.len(), w);
    lemma_be_value_of_bytes(v.len(), w);
    assert(b.take(w as int) =~= be_bytes(v.len(), w));
    assert(b.skip(w as int) =~= v + rest);
    assert(b.skip(w as int).take(v.len() as int) =~= v);
    assert(b.skip(w as int).skip(v.len() as int) =~= rest);
}

pub proof fn lemma_parse_entry_inverse(b: Seq<u8>)
    ensures
        parse_entry(b) matches Ok((e, rest)) ==> entry_fits(e) && b == entry_bytes(e) + rest,
{
    lemma_read_vec_inverse(b, 3);
    if let Ok((data, r1)) = read_vec(b, 3) {
        lemma_read_vec_inverse(r1, 2);
        if let Ok((ext, r2)) = read_vec(r1, 2) {
            assert(b =~= vec_bytes(data, 3) + vec_bytes(ext, 2) + r2);
        }
    }
}

pub proof fn lemma_parse_entry_of_bytes(e: EntryModel, rest: Seq<u8>)
    requires
        entry_fits(e),
    ensures
        parse_entry(entry_bytes(e) + rest) == Ok::<(EntryModel, Seq<u8>), WireError>((e, rest)),
{
    let r1 = vec_bytes(e.extensions, 2) + rest;
    assert(entry_bytes(e) + rest =~= vec_bytes(e.data, 3) + r1);
    lemma_read_vec_of_bytes(e.data, 3, r1);
    lemma_read_vec_of_bytes(e.extensions, 2, rest);
}

pub proof fn lemma_entry_bytes_len(e: EntryModel)
    ensures
        entry_bytes(e).len() == 5 + e.data.len() + e.extensions.len(),
{
    lemma_be_bytes_len(e.data.len(), 3);
    lemma_be_bytes_len(e.extensions.len(), 2);
}

/// A list that parses is the concatenation of its entries.
pub proof fn lemma_parse_entries_inverse(b: Seq<u8>)
    ensures
        parse_entries(b) matches Ok(es) ==> (forall|i: int|
            0 <= i < es.len() ==> entry_fits(#[trigger] es[i])) && b == entries_bytes(es),
    decreases b.len(),
{
    if b.len() > 0 {
        lemma_parse_entry_inverse(b);
        lemma_parse_entry_shrinks(b);
        if let Ok((e, rest)) = parse_entry(b) {
            lemma_parse_entries_inverse(rest);
            if let Ok(tail) = parse_entries(rest) {
                let es = seq![e] + tail;
                assert(es.skip(1) =~= tail);
                assert(es[0] == e);
                assert forall|i: int| 0 <= i < es.len() implies entry_fits(#[trigger] es[i]) by {
                    if i > 0 {
                        assert(es[i] == tail[i - 1]);
                    }
                }
            }
        }
    }
}

/// Entries that fit their prefixes parse back from their concatenation.
pub proof fn lemma_parse_entries_of_bytes(es: Seq<EntryModel>)
    requires
        forall|i: int| 0 <= i < es.len() ==> entry_fits(#[trigger] es[i]),
    ensures
        parse_entries(entries_bytes(es)) == Ok::<Seq<EntryModel>, WireError>(es),
    decreases es.len(),
{
    if es.len() > 0 {
        let tail = es.skip(1);
        assert forall|i: int| 0 <= i < tail.len() implies entry_fits(#[trigger] tail[i]) by {
            assert(tail[i] == es[i + 1]);
        }
        lemma_parse_entries_of_bytes(tail);
        assert(entry_fits(es[0]));
        lemma_parse_entry_of_bytes(es[0], entries_bytes(tail));
        lemma_entry_bytes_len(es[0]);
        let b = entries_bytes(es);
        assert(b == entry_bytes(es[0]) + entries_bytes(tail));
        assert(b.len() > 0);
        assert(parse_entry(b) == Ok::<(EntryModel, Seq<u8>), WireError>((es[0], entries_bytes(tail))));
        assert(es =~= seq![es[0]] + tail);
    } else {
        assert(es =~= Seq::<EntryModel>::empty());
    }
}

/// Parsing a payload and writing the result back gives the same bytes.
pub proof fn lemma_parse_message_inverse(b: Seq<u8>)
    ensures
        parse_message(b) matches Ok(m) ==> message_fits(m) && message_bytes(m) == b,
{
    lemma_read_vec_inverse(b, 1);
    if let Ok((ctx, r1)) = read_vec(b, 1) {
        lemma_read_vec_inverse(r1, 3);
        if let Ok((list, r2)) = read_vec(r1, 3) {
            lemma_parse_entries_inverse(list);
            if r2.len() == 0 {
                assert(r2 =~= Seq::<u8>::empty());
                assert(b =~= vec_bytes(ctx, 1) + vec_bytes(list, 3));
            }
        }
    }
}

/// A message whose lengths fit parses back from its wire form.
pub proof fn lemma_parse_message_of_bytes(m: MessageModel)
    requires
        message_fits(m),
    ensures
        parse_message(message_bytes(m)) == Ok::<MessageModel, WireError>(m),
{
    let list = entries_bytes(m.entries);
    let r1 = vec_bytes(list, 3);
    assert(message_bytes(m) =~= vec_bytes(m.request_context, 1) + r1);
    lemma_read_vec_of_bytes(m.request_context, 1, r1);
    assert(r1 =~= vec_bytes(list, 3) + Seq::<u8>::empty());
    lemma_read_vec_of_bytes(list, 3, Seq::<u8>::empty());
    lemma_parse_entries_of_bytes(m.entries);
}

pub proof fn lemma_entries_bytes_concat(a: Seq<EntryModel>, b: Seq<EntryModel>)
    ensures
        entries_bytes(a + b) == entries_bytes(a) + entries_bytes(b),
    decreases a.len(),
{
    if a.len() == 0 {
        assert(a + b =~= b);
        assert(entries_bytes(a) + entries_bytes(b) =~= entries_bytes(b));
    } else {
        lemma_entries_bytes_concat(a.skip(1), b);
        assert((a + b).skip(1) =~= a.skip(1) + b);
        assert((a + b)[0] == a[0]);
        assert(entries_bytes(a + b) =~= entries_bytes(a) + entries_bytes(b));
    }
}

pub proof fn lemma_entries_bytes_push(es: Seq<EntryModel>, i: int)
    requires
        0 <= i < es.len(),
    ensures
        entries_bytes(es.take(i + 1)) == entries_bytes(es.take(i)) + entry_bytes(es[i]),
        entries_bytes(es) == entries_bytes(es.take(i)) + entries_bytes(es.skip(i)),
{
    let one = seq![es[i]];
    assert(es.take(i + 1) =~= es.take(i) + one);
    lemma_entries_bytes_concat(es.take(i), one);
    assert(one.skip(1) =~= Seq::<EntryModel>::empty());
    assert(entries_bytes(one.skip(1)) =~= Seq::<u8>::empty());
    assert(one[0] == es[i]);
    assert(entries_bytes(one) =~= entry_bytes(es[i]));
    assert(es =~= es.take(i) + es.skip(i));
    lemma_entries_bytes_concat(es.take(i), es.skip(i));
}

pub proof fn lemma_entries_bytes_prefix(es: Seq<EntryModel>, k: int)
    requires
        0 <= k <= es.len(),
    ensures
        entries_bytes(es.take(k)).len() <= entries_bytes(es).len(),
{
    assert(es =~= es.take(k) + es.skip(k));
    lemma_entries_bytes_concat(es.take(k), es.skip(k));
}

/// An entry of a `Certificate` payload.
#[derive(Debug)]
pub struct CertificateEntry {
    pub data: Vec<u8>,
    pub extensions: Vec<u8>,
}

/// A `Certificate` payload: request context and certificate chain, in order.
#[derive(Debug)]
pub struct CertificateMessage {
    pub request_context: Vec<u8>,
    pub certificate_entries: Vec<CertificateEntry>,
}

impl View for CertificateEntry {
    type V = EntryModel;

    open spec fn view(&self) -> EntryModel {
        EntryModel { data: self.data@, extensions: self.extensions@ }
    }
}

/// The values of a list of entries.
pub open spec fn entries_view(es: Seq<CertificateEntry>) -> Seq<EntryModel> {
    es.map_values(|e: CertificateEntry| e@)
}

impl View for CertificateMessage {
    type V = MessageModel;

    open spec fn view(&self) -> MessageModel {
        MessageModel {
            request_context: self.request_context@,
            entries: entries_view(self.certificate_entries@),
        }
    }
}

/// Reads a vector with a `width`-byte length prefix from `buf[pos..end]`
/// and returns where it ends; its contents start at `pos + width`.
fn read_tls_vec(width: usize, buf: &[u8], pos: usize, end: usize) -> (r: Result<usize, WireError>)
    requires
        1 <= width <= 3,
        pos <= end <= buf@.len(),
    ensures
        match read_vec(buf@.subrange(pos as int, end as int), width as nat) {
            Ok((v, rest)) => r matches Ok(p) && pos + width <= p <= end && v == buf@.subrange(
                pos + width,
                p as int,
            ) && rest == buf@.subrange(p as int, end as int),
            Err(e) => r == Err::<usize, WireError>(e),
        },
{
    let ghost b = buf@.subrange(pos as int, end as int);
    if end - pos < width {
        return Err(WireError::ShortHeader);
    }
    let len = read_uint(buf, pos, width);
    assert(b.take(width as int) =~= buf@.subrange(pos as int, pos + width));
    let start = pos + width;
    assert(b.skip(width as int) =~= buf@.subrange(start as int, end as int));
    if ((end - start) as u64) < len {
        return Err(WireError::Overflow);
    }
    let p = start + len as usize;
    assert(b.skip(width as int).take(len as int) =~= buf@.subrange(start as int, p as int));
    assert(b.skip(width as int).skip(len as int) =~= buf@.subrange(p as int, end as int));
    Ok(p)
}

/// Reads one entry from `buf[pos..end]` and returns it with the position
/// after it.
fn read_entry_at(buf: &[u8], pos: usize, end: usize) -> (r: Result<
    (CertificateEntry, usize),
    WireError,
>)
    requires
        pos <= end <= buf@.len(),
    ensures
        match parse_entry(buf@.subrange(pos as int, end as int)) {
            Ok((e, rest)) => r matches Ok((ce, p)) && ce@ == e && pos <= p <= end && rest
                == buf@.subrange(p as int, end as int),
            Err(x) => r matches Err(y) && x == y,
        },
{
    let data_end = read_tls_vec(3, buf, pos, end)?;
    let ext_end = read_tls_vec(2, buf, data_end, end)?;
    let data = copy_bytes(buf, pos + 3, data_end);
    let extensions = copy_bytes(buf, data_end + 2, ext_end);
    Ok((CertificateEntry { data, extensions }, ext_end))
}

impl CertificateEntry {
    /// Reads one entry from the front of `value`; returns it with the
    /// number of bytes it took.
    pub fn read_from_bytes(value: &[u8]) -> (r: Result<(CertificateEntry, usize), WireError>)
        ensures
            match parse_entry(value@) {
                Ok((e, rest)) => r matches Ok((ce, n)) && ce@ == e && n <= value@.len() && rest
                    == value@.skip(n as int),
                Err(x) => r == Err::<(CertificateEntry, usize), WireError>(x),
            },
    {
        assert(value@.subrange(0, value@.len() as int) =~= value@);
        let r = read_entry_at(value, 0, value.len());
        if let Ok((_, n)) = &r {
            assert(value@.subrange(*n as int, value@.len() as int) =~= value@.skip(*n as int));
        }
        r
    }

    /// The number of bytes this entry takes on the wire.
    pub fn get_size(&self) -> (r: usize)
        requires
            self.data@.len() + self.extensions@.len() + 5 <= usize::MAX,
        ensures
            r == 5 + self.data@.len() + self.extensions@.len(),
    {
        3 + self.data.len() + 2 + self.extensions.len()
    }
}

/// Puts `pre` in front of a parsed list of entries.
pub open spec fn prepend_entries(pre: Seq<EntryModel>, r: Result<Seq<EntryModel>, WireError>) -> Result<
    Seq<EntryModel>,
    WireError,
> {
    match r {
        Ok(es) => Ok(pre + es),
        Err(e) => Err(e),
    }
}

/// Reads entries from `buf[pos..end]` until it is used up exactly.
fn read_entries(buf: &[u8], pos: usize, end: usize) -> (r: Result<Vec<CertificateEntry>, WireError>)
    requires
        pos <= end <= buf@.len(),
    ensures
        match parse_entries(buf@.subrange(pos as int, end as int)) {
            Ok(es) => r matches Ok(v) && entries_view(v@) == es,
            Err(e) => r == Err::<Vec<CertificateEntry>, WireError>(e),
        },
{
    let ghost whole = buf@.subrange(pos as int, end as int);
    let mut entries: Vec<CertificateEntry> = Vec::new();
    let mut p = pos;
    assert(entries_view(entries@) =~= Seq::<EntryModel>::empty());
    assert(prepend_entries(Seq::empty(), parse_entries(whole)) == parse_entries(whole)) by {
        if let Ok(es) = parse_entries(whole) {
            assert(Seq::<EntryModel>::empty() + es =~= es);
        }
    }
    while p < end
        invariant
            pos <= p <= end <= buf@.len(),
            whole == buf@.subrange(pos as int, end as int),
            parse_entries(whole) == prepend_entries(
                entries_view(entries@),
                parse_entries(buf@.subrange(p as int, end as int)),
            ),
        decreases end - p,
    {
        let ghost cur = buf@.subrange(p as int, end as int);
        let ghost pre = entries_view(entries@);
        match read_entry_at(buf, p, end) {
            Err(_) => {
                return Err(WireError::TruncatedEntry);
            },
            Ok((entry, next)) => {
                proof {
                    lemma_parse_entry_shrinks(cur);
                    let e = entry@;
                    let rest = buf@.subrange(next as int, end as int);
                    assert(rest.len() < cur.len());
                    match parse_entries(rest) {
                        Ok(es) => {
                            assert(pre + (seq![e] + es) =~= pre.push(e) + es);
                        },
                        Err(_) => {},
                    }
                }
                entries.push(entry);
                assert(entries_view(entries@) =~= pre.push(entry@));
                p = next;
            },
        }
    }
    proof {
        assert(buf@.subrange(p as int, end as int) =~= Seq::<u8>::empty());
        assert(entries_view(entries@) + Seq::<EntryModel>::empty() =~= entries_view(entries@));
    }
    Ok(entries)
}

impl CertificateMessage {
    /// Parses a whole `Certificate` payload, without handshake header.
    pub fn read_from_bytes(value: &[u8]) -> (r: Result<CertificateMessage, WireError>)
        ensures
            match parse_message(value@) {
                Ok(m) => r matches Ok(cm) && cm@ == m,
                Err(e) => r == Err::<CertificateMessage, WireError>(e),
            },
    {
        let end = value.len();
        assert(value@.subrange(0, end as int) =~= value@);
        let ctx_end = read_tls_vec(1, value, 0, end)?;
        let list_end = read_tls_vec(3, value, ctx_end, end)?;
        if list_end != end {
            return Err(WireError::TrailingData);
        }
        let certificate_entries = read_entries(value, ctx_end + 3, list_end)?;
        let request_context = copy_bytes(value, 1, ctx_end);
        Ok(CertificateMessage { request_context, certificate_entries })
    }
}

/// Writes `size` as a `WIDTH`-byte big-endian integer, or fails with
/// `ValueTooLarge`, writing nothing, where it does not fit.
pub fn write_tls_int<const WIDTH: u8>(size: u64, writer: &mut Vec<u8>) -> (r: Result<(), WireError>)
    requires
        1 <= WIDTH <= 4,
    ensures
        size < pow256(WIDTH as nat) ==> r is Ok && final(writer)@ == old(writer)@ + be_bytes(
            size as nat,
            WIDTH as nat,
        ),
        size >= pow256(WIDTH as nat) ==> r == Err::<(), WireError>(WireError::ValueTooLarge)
            && final(writer)@ == old(writer)@,
{
    let mut limit: u64 = 1;
    let mut k: u8 = 0;
    while k < WIDTH
        invariant
            k <= WIDTH <= 4,
            limit == pow256(k as nat),
        decreases WIDTH - k,
    {
        assert(pow256(k as nat) <= 0x1000000) by {
            reveal_with_fuel(pow256, 4);
        }
        limit = limit * 256;
        k = k + 1;
    }
    if size >= limit {
        return Err(WireError::ValueTooLarge);
    }
    let mut digits: Vec<u8> = Vec::new();
    let mut rest: u64 = size;
    let mut left: u8 = WIDTH;
    while left > 0
        invariant
            left <= WIDTH,
            be_bytes(size as nat, WIDTH as nat) == be_bytes(rest as nat, left as nat) + digits@,
        decreases left,
    {
        let ghost before = digits@;
        let d = (rest % 256) as u8;
        digits.insert(0, d);
        assert(digits@ =~= seq![d] + before);
        assert(be_bytes(rest as nat, left as nat) + before =~= be_bytes(
            (rest / 256) as nat,
            (left - 1) as nat,
        ) + digits@);
        rest = rest / 256;
        left = left - 1;
    }
    assert(be_bytes(rest as nat, 0) + digits@ =~= digits@);
    append_bytes(writer, digits.as_slice());
    Ok(())
}

/// Writes `value` with a `WIDTH`-byte length prefix, or fails with
/// `ValueTooLarge`, writing nothing, where its length does not fit.
pub fn write_tls_vec<const WIDTH: u8>(value: &[u8], writer: &mut Vec<u8>) -> (r: Result<(), WireError>)
    requires
        1 <= WIDTH <= 4,
    ensures
        value@.len() < pow256(WIDTH as nat) ==> r is Ok && final(writer)@ == old(writer)@
            + vec_bytes(value@, WIDTH as nat),
        value@.len() >= pow256(WIDTH as nat) ==> r == Err::<(), WireError>(
            WireError::ValueTooLarge,
        ) && final(writer)@ == old(writer)@,
{
    write_tls_int::<WIDTH>(value.len() as u64, writer)?;
    append_bytes(writer, value);
    assert(final(writer)@ =~= old(writer)@ + vec_bytes(value@, WIDTH as nat));
    Ok(())
}

impl CertificateEntry {
    /// Writes the entry in wire form, or fails with `ValueTooLarge`,
    /// writing nothing, where a field does not fit its length prefix.
    pub fn write_to_bytes(&self, writer: &mut Vec<u8>) -> (r: Result<(), WireError>)
        ensures
            entry_fits(self@) ==> r is Ok && final(writer)@ == old(writer)@ + entry_bytes(self@),
            !entry_fits(self@) ==> r == Err::<(), WireError>(WireError::ValueTooLarge)
                && final(writer)@ == old(writer)@,
    {
        proof {
            lemma_pow256_values();
        }
        if self.extensions.len() >= 0x10000 {
            return Err(WireError::ValueTooLarge);
        }
        write_tls_vec::<3>(self.data.as_slice(), writer)?;
        write_tls_vec::<2>(self.extensions.as_slice(), writer)?;
        assert(writer@ =~= old(writer)@ + entry_bytes(self@));
        Ok(())
    }
}

impl CertificateMessage {
    /// Writes the payload in wire form, or fails with `ValueTooLarge`,
    /// writing nothing, where a length does not fit its prefix.
    pub fn write_to_bytes(&self, writer: &mut Vec<u8>) -> (r: Result<(), WireError>)
        ensures
            message_fits(self@) ==> r is Ok && final(writer)@ == old(writer)@ + message_bytes(
                self@,
            ),
            !message_fits(self@) ==> r == Err::<(), WireError>(WireError::ValueTooLarge)
                && final(writer)@ == old(writer)@,
    {
        proof {
            lemma_pow256_values();
        }
        let ghost es = self@.entries;
        let n = self.certificate_entries.len();
        let mut ce_size: u64 = 0;
        let mut i: usize = 0;
        while i < n
            invariant
                i <= n == self.certificate_entries@.len() == es.len(),
                es == entries_view(self.certificate_entries@),
                forall|j: int| 0 <= j < i ==> entry_fits(#[trigger] es[j]),
                ce_size == entries_bytes(es.take(i as int)).len(),
                ce_size < 0x1000000,
            decreases n - i,
        {
            let ce = &self.certificate_entries[i];
            assert(ce@ == es[i as int]);
            proof {
                lemma_pow256_values();
                lemma_entries_bytes_push(es, i as int);
                lemma_entry_bytes_len(es[i as int]);
            }
            if ce.data.len() >= 0x1000000 || ce.extensions.len() >= 0x10000 {
                assert(!entry_fits(es[i as int]));
                return Err(WireError::ValueTooLarge);
            }
            ce_size = ce_size + 5 + ce.data.len() as u64 + ce.extensions.len() as u64;
            if ce_size >= 0x1000000 {
                proof {
                    lemma_entries_bytes_prefix(es, i as int + 1);
                }
                return Err(WireError::ValueTooLarge);
            }
            i = i + 1;
        }
        assert(es.take(n as int) =~= es);
        write_tls_vec::<1>(self.request_context.as_slice(), writer)?;
        write_tls_int::<3>(ce_size, writer).unwrap();
        let ghost head = writer@;
        let mut i: usize = 0;
        while i < n
            invariant
                i <= n == self.certificate_entries@.len() == es.len(),
                es == entries_view(self.certificate_entries@),
                forall|j: int| 0 <= j < n ==> entry_fits(#[trigger] es[j]),
                writer@ == head + entries_bytes(es.take(i as int)),
            decreases n - i,
        {
            let ce = &self.certificate_entries[i];
            assert(ce@ == es[i as int]);
            assert(entry_fits(es[i as int]));
            proof {
                lemma_entries_bytes_push(es, i as int);
            }
            ce.write_to_bytes(writer).unwrap();
            i = i + 1;
        }
        assert(writer@ =~= old(writer)@ + message_bytes(self@));
        Ok(())
    }
}

} // verus!
