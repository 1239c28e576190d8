//! Pass 1: swaps well-known certificates for their identifiers and back,
//! leaving everything else in the payload as it was.
use crate::builtins::{
    builtin_pairs, builtin_table, cert_for_id, id_for_cert, lemma_wf_pairs_ok, CertTable, Pairs,
};
use crate::error::CodecError;
use crate::tls::{
    copy_bytes, entries_bytes, entries_view, entry_fits, lemma_entry_bytes_len,
    lemma_parse_message_inverse, lemma_parse_message_of_bytes, message_bytes, message_fits,
    parse_message, CertificateEntry, CertificateMessage, EntryModel,
    MessageModel,
};
use vstd::prelude::*;

verus! {

/// An entry with its certificate replaced by its identifier, where the
/// table knows the certificate.
pub open spec fn compress_entry(p: Pairs, e: EntryModel) -> EntryModel {
    EntryModel {
        data: match id_for_cert(p, e.data) {
            Some(id) => id,
            None => e.data,
        },
        extensions: e.extensions,
    }
}

/// An entry with its identifier replaced by the certificate it names,
/// where the table knows the identifier.
pub open spec fn decompress_entry(p: Pairs, e: EntryModel) -> EntryModel {
    EntryModel {
        data: match cert_for_id(p, e.data) {
            Some(c) => c,
            None => e.data,
        },
        extensions: e.extensions,
    }
}

pub open spec fn compress_message(p: Pairs, m: MessageModel) -> MessageModel {
    MessageModel {
        request_context: m.request_context,
        entries: m.entries.map_values(|e: EntryModel| compress_entry(p, e)),
    }
}

pub open spec fn decompress_message(p: Pairs, m: MessageModel) -> MessageModel {
    MessageModel {
        request_context: m.request_context,
        entries: m.entries.map_values(|e: EntryModel| decompress_entry(p, e)),
    }
}

/// Pass 1 on bytes: parse, rewrite each entry, write back.
pub open spec fn pass1_compress(p: Pairs, b: Seq<u8>) -> Result<Seq<u8>, CodecError> {
    match parse_message(b) {
        Err(_) => Err(CodecError::MalformedInput),
        Ok(m) => {
            let out = compress_message(p, m);
            if message_fits(out) {
                Ok(message_bytes(out))
            } else {
                Err(CodecError::ValueTooLarge)
            }
        },
    }
}

/// The inverse of pass 1 on bytes.
pub open spec fn pass1_decompress(p: Pairs, b: Seq<u8>) -> Result<Seq<u8>, CodecError> {
    match parse_message(b) {
        Err(_) => Err(CodecError::MalformedInput),
        Ok(m) => {
            let out = decompress_message(p, m);
            if message_fits(out) {
                Ok(message_bytes(out))
            } else {
                Err(CodecError::ValueTooLarge)
            }
        },
    }
}

/// Writes a parsed message, reporting a length that does not fit.
fn write_message(msg: &CertificateMessage, writer: &mut Vec<u8>) -> (r: Result<(), CodecError>)
    ensures
        message_fits(msg@) ==> r is Ok && final(writer)@ == old(writer)@ + message_bytes(msg@),
        !message_fits(msg@) ==> r == Err::<(), CodecError>(CodecError::ValueTooLarge)
            && final(writer)@ == old(writer)@,
{
    match msg.write_to_bytes(writer) {
        Ok(()) => Ok(()),
        Err(_) => Err(CodecError::ValueTooLarge),
    }
}

/// Replaces well-known certificates by their identifiers.
pub struct Compressor {
    pub table: CertTable,
}

impl Compressor {
    pub fn new(table: CertTable) -> (r: Self)
        ensures
            r.table@ == table@,
    {
        Compressor { table }
    }

    /// A compressor over the bundled table.
    pub fn new_builtin() -> (r: Self)
        ensures
            r.table@ == builtin_pairs(),
    {
        Compressor { table: builtin_table() }
    }

    fn map_or_preserve_cert_entry(&self, entry: &CertificateEntry) -> (r: CertificateEntry)
        ensures
            r@ == compress_entry(self.table@, entry@),
    {
        let extensions = copy_bytes(entry.extensions.as_slice(), 0, entry.extensions.len());
        assert(extensions@ =~= entry.extensions@);
        match self.table.cert_to_identifier(entry.data.as_slice()) {
            Some(id) => CertificateEntry { data: id, extensions },
            None => {
                let data = copy_bytes(entry.data.as_slice(), 0, entry.data.len());
                assert(data@ =~= entry.data@);
                CertificateEntry { data, extensions }
            },
        }
    }

    /// Runs pass 1 on `cert_msg` and appends the result to `writer`;
    /// on failure `writer` is left as it was.
    pub fn compress(&self, cert_msg: &[u8], writer: &mut Vec<u8>) -> (r: Result<(), CodecError>)
        ensures
            match pass1_compress(self.table@, cert_msg@) {
                Ok(out) => r is Ok && final(writer)@ == old(writer)@ + out,
                Err(e) => r == Err::<(), CodecError>(e) && final(writer)@ == old(writer)@,
            },
    {
        let msg = match CertificateMessage::read_from_bytes(cert_msg) {
            Ok(m) => m,
            Err(_) => return Err(CodecError::MalformedInput),
        };
        let ghost m = msg@;
        let n = msg.certificate_entries.len();
        let mut entries: Vec<CertificateEntry> = Vec::new();
        let mut i: usize = 0;
        while i < n
            invariant
                i <= n == msg.certificate_entries@.len(),
                m == msg@,
                entries_view(entries@) =~= compress_message(self.table@, m).entries.take(i as int),
            decreases n - i,
        {
            let ghost before = entries_view(entries@);
            let e = self.map_or_preserve_cert_entry(&msg.certificate_entries[i]);
            assert(msg.certificate_entries@[i as int]@ == m.entries[i as int]);
            entries.push(e);
            assert(entries_view(entries@) =~= before.push(e@));
            i = i + 1;
        }
        assert(compress_message(self.table@, m).entries.take(n as int) =~= compress_message(
            self.table@,
            m,
        ).entries);
        let out = CertificateMessage {
            request_context: msg.request_context,
            certificate_entries: entries,
        };
        assert(out@ =~= compress_message(self.table@, m));
        write_message(&out, writer)
    }

    /// Runs pass 1 on `cert_msg`.
    pub fn compress_to_bytes(&self, cert_msg: &[u8]) -> (r: Result<Vec<u8>, CodecError>)
        ensures
            match pass1_compress(self.table@, cert_msg@) {
                Ok(out) => r matches Ok(v) && v@ == out,
                Err(e) => r == Err::<Vec<u8>, CodecError>(e),
            },
    {
        let mut output: Vec<u8> = Vec::with_capacity(cert_msg.len());
        self.compress(cert_msg, &mut output)?;
        assert(output@ =~= Seq::<u8>::empty() + output@);
        Ok(output)
    }
}

/// Restores well-known certificates from their identifiers.
pub struct Decompressor {
    pub table: CertTable,
}

impl Decompressor {
    pub fn new(table: CertTable) -> (r: Self)
        ensures
            r.table@ == table@,
    {
        Decompressor { table }
    }

    /// A decompressor over the bundled table.
    pub fn new_builtin() -> (r: Self)
        ensures
            r.table@ == builtin_pairs(),
    {
        Decompressor { table: builtin_table() }
    }

    fn map_identifier(&self, entry: &CertificateEntry) -> (r: CertificateEntry)
        ensures
            r@ == decompress_entry(self.table@, entry@),
    {
        let extensions = copy_bytes(entry.extensions.as_slice(), 0, entry.extensions.len());
        assert(extensions@ =~= entry.extensions@);
        match self.table.id_to_cert(entry.data.as_slice()) {
            Some(cert) => CertificateEntry { data: cert, extensions },
            None => {
                let data = copy_bytes(entry.data.as_slice(), 0, entry.data.len());
                assert(data@ =~= entry.data@);
                CertificateEntry { data, extensions }
            },
        }
    }

    /// Undoes pass 1 on `compressed_msg` and appends the result to
    /// `writer`; on failure `writer` is left as it was.
    pub fn decompress(&self, compressed_msg: &[u8], writer: &mut Vec<u8>) -> (r: Result<
        (),
        CodecError,
    >)
        ensures
            match pass1_decompress(self.table@, compressed_msg@) {
                Ok(out) => r is Ok && final(writer)@ == old(writer)@ + out,
                Err(e) => r == Err::<(), CodecError>(e) && final(writer)@ == old(writer)@,
            },
    {
        let msg = match CertificateMessage::read_from_bytes(compressed_msg) {
            Ok(m) => m,
            Err(_) => return Err(CodecError::MalformedInput),
        };
        let ghost m = msg@;
        let n = msg.certificate_entries.len();
        let mut entries: Vec<CertificateEntry> = Vec::new();
        let mut i: usize = 0;
        while i < n
            invariant
                i <= n == msg.certificate_entries@.len(),
                m == msg@,
                entries_view(entries@) =~= decompress_message(self.table@, m).entries.take(
                    i as int,
                ),
            decreases n - i,
        {
            let ghost before = entries_view(entries@);
            let e = self.map_identifier(&msg.certificate_entries[i]);
            assert(msg.certificate_entries@[i as int]@ == m.entries[i as int]);
            entries.push(e);
            assert(entries_view(entries@) =~= before.push(e@));
            i = i + 1;
        }
        assert(decompress_message(self.table@, m).entries.take(n as int) =~= decompress_message(
            self.table@,
            m,
        ).entries);
        let out = CertificateMessage {
            request_context: msg.request_context,
            certificate_entries: entries,
        };
        assert(out@ =~= decompress_message(self.table@, m));
        write_message(&out, writer)
    }

    /// Undoes pass 1 on `compressed_msg`.
    pub fn decompress_to_bytes(&self, compressed_msg: &[u8]) -> (r: Result<Vec<u8>, CodecError>)
        ensures
            match pass1_decompress(self.table@, compressed_msg@) {
                Ok(out) => r matches Ok(v) && v@ == out,
                Err(e) => r == Err::<Vec<u8>, CodecError>(e),
            },
    {
        let mut output: Vec<u8> = Vec::with_capacity(compressed_msg.len());
        self.decompress(compressed_msg, &mut output)?;
        assert(output@ =~= Seq::<u8>::empty() + output@);
        Ok(output)
    }
}

/// No entry of `m` holds an identifier of `p`, and an entry whose
/// fingerprint is found in `p` holds exactly the certificate found.
pub open spec fn entries_unambiguous(p: Pairs, m: MessageModel) -> bool {
    forall|i: int|
        #![trigger m.entries[i]]
        0 <= i < m.entries.len() ==> cert_for_id(p, m.entries[i].data) is None && (id_for_cert(
            p,
            m.entries[i].data,
        ) matches Some(id) ==> cert_for_id(p, id) == Some(m.entries[i].data))
}

/// Entries whose data is no longer than before, with the same extensions,
/// take no more room on the wire.
pub proof fn lemma_entries_bytes_shrink(a: Seq<EntryModel>, b: Seq<EntryModel>)
    requires
        a.len() == b.len(),
        forall|i: int|
            #![trigger a[i], b[i]]
            0 <= i < a.len() ==> a[i].data.len() <= b[i].data.len() && a[i].extensions
                == b[i].extensions,
    ensures
        entries_bytes(a).len() <= entries_bytes(b).len(),
    decreases a.len(),
{
    if a.len() > 0 {
        assert(a[0].data.len() <= b[0].data.len());
        lemma_entry_bytes_len(a[0]);
        lemma_entry_bytes_len(b[0]);
        let (ta, tb) = (a.skip(1), b.skip(1));
        assert forall|i: int|
            #![trigger ta[i], tb[i]]
            0 <= i < ta.len() implies ta[i].data.len() <= tb[i].data.len() && ta[i].extensions
                == tb[i].extensions by {
            assert(ta[i] == a[i + 1] && tb[i] == b[i + 1]);
        }
        lemma_entries_bytes_shrink(ta, tb);
    }
}

/// Pass 1 is undone by its inverse: on a well-formed payload none of whose
/// entries holds an identifier, or a certificate that only shares a
/// fingerprint with one of the table, decompressing the compressed payload
/// gives the payload back.
pub proof fn lemma_pass1_round_trip(t: CertTable, b: Seq<u8>)
    requires
        t.wf(),
        parse_message(b) matches Ok(m) && entries_unambiguous(t@, m),
    ensures
        pass1_compress(t@, b) matches Ok(c) && pass1_decompress(t@, c) == Ok::<
            Seq<u8>,
            CodecError,
        >(b),
{
    lemma_parse_message_inverse(b);
    let m = parse_message(b)->Ok_0;
    let p = t@;
    let out = compress_message(p, m);
    lemma_wf_pairs_ok(t);
    assert forall|i: int|
        #![trigger out.entries[i], m.entries[i]]
        0 <= i < out.entries.len() implies out.entries[i].data.len() <= m.entries[i].data.len()
            && out.entries[i].extensions == m.entries[i].extensions by {
        let e = m.entries[i];
        if let Some(id) = id_for_cert(p, e.data) {
            assert(cert_for_id(p, id) == Some(e.data));
            let k = choose|k: int| 0 <= k < p.len() && p[k].0 == id;
            assert(p[k].0.len() < p[k].1.len());
        }
    }
    lemma_entries_bytes_shrink(out.entries, m.entries);
    assert forall|i: int| 0 <= i < out.entries.len() implies entry_fits(
        #[trigger] out.entries[i],
    ) by {
        assert(entry_fits(m.entries[i]));
        assert(out.entries[i].data.len() <= m.entries[i].data.len());
    }
    assert(message_fits(out));
    let c = message_bytes(out);
    lemma_parse_message_of_bytes(out);
    let back = decompress_message(p, out);
    assert(back.entries =~= m.entries) by {
        assert forall|i: int| 0 <= i < m.entries.len() implies back.entries[i]
            == m.entries[i] by {
            let e = m.entries[i];
            assert(out.entries[i] == compress_entry(p, e));
            if let Some(id) = id_for_cert(p, e.data) {
                assert(cert_for_id(p, id) == Some(e.data));
            } else {
                assert(cert_for_id(p, e.data) is None);
            }
        }
    }
    assert(back == m);
}

/// Pass 1 leaves alone a well-formed payload whose entries the table knows
/// in neither direction: both ways it gives the same bytes back.
pub proof fn lemma_pass1_unknown_transparent(t: CertTable, b: Seq<u8>)
    requires
        parse_message(b) matches Ok(m) && forall|i: int|
            #![trigger m.entries[i]]
            0 <= i < m.entries.len() ==> id_for_cert(t@, m.entries[i].data) is None && cert_for_id(
                t@,
                m.entries[i].data,
            ) is None,
    ensures
        pass1_compress(t@, b) == Ok::<Seq<u8>, CodecError>(b),
        pass1_decompress(t@, b) == Ok::<Seq<u8>, CodecError>(b),
{
    lemma_parse_message_inverse(b);
    let m = parse_message(b)->Ok_0;
    assert(compress_message(t@, m).entries =~= m.entries);
    assert(decompress_message(t@, m).entries =~= m.entries);
    assert(compress_message(t@, m) == m);
    assert(decompress_message(t@, m) == m);
}

/// What either direction of pass 1 produces is again a well-formed
/// `Certificate` payload.
pub proof fn lemma_pass1_output_parses(p: Pairs, b: Seq<u8>)
    ensures
        pass1_compress(p, b) matches Ok(c) ==> parse_message(c) is Ok,
        pass1_decompress(p, b) matches Ok(c) ==> parse_message(c) is Ok,
{
    if let Ok(m) = parse_message(b) {
        if message_fits(compress_message(p, m)) {
            lemma_parse_message_of_bytes(compress_message(p, m));
        }
        if message_fits(decompress_message(p, m)) {
            lemma_parse_message_of_bytes(decompress_message(p, m));
        }
    }
}

/// Undoing pass 1 never shortens a payload: identifiers are shorter than
/// the certificates they name. So a cap on the final output also bounds
/// the payload that pass 2 has to produce.
pub proof fn lemma_pass1_decompress_grows(t: CertTable, b: Seq<u8>)
    requires
        t.wf(),
    ensures
        pass1_decompress(t@, b) matches Ok(out) ==> b.len() <= out.len(),
{
    if let Ok(m) = parse_message(b) {
        let p = t@;
        let out = decompress_message(p, m);
        if message_fits(out) {
            lemma_parse_message_inverse(b);
            lemma_wf_pairs_ok(t);
            assert forall|i: int|
                #![trigger m.entries[i], out.entries[i]]
                0 <= i < m.entries.len() implies m.entries[i].data.len()
                    <= out.entries[i].data.len() && m.entries[i].extensions
                    == out.entries[i].extensions by {
                let e = m.entries[i];
                if let Some(c) = cert_for_id(p, e.data) {
                    let k = choose|k: int| 0 <= k < p.len() && p[k].0 == e.data;
                    assert(p[k].0.len() < p[k].1.len());
                }
            }
            lemma_entries_bytes_shrink(m.entries, out.entries);
            crate::tls::lemma_be_bytes_len(m.request_context.len(), 1);
            crate::tls::lemma_be_bytes_len(entries_bytes(m.entries).len(), 3);
            crate::tls::lemma_be_bytes_len(entries_bytes(out.entries).len(), 3);
        }
    }
}

/// As `lemma_entries_bytes_shrink`, and strictly shorter where one entry's
/// data is.
pub proof fn lemma_entries_bytes_shrink_strict(a: Seq<EntryModel>, b: Seq<EntryModel>, k: int)
    requires
        a.len() == b.len(),
        forall|i: int|
            #![trigger a[i], b[i]]
            0 <= i < a.len() ==> a[i].data.len() <= b[i].data.len() && a[i].extensions
                == b[i].extensions,
        0 <= k < a.len(),
        a[k].data.len() < b[k].data.len(),
    ensures
        entries_bytes(a).len() < entries_bytes(b).len(),
    decreases a.len(),
{
    assert(a[0].data.len() <= b[0].data.len());
    lemma_entry_bytes_len(a[0]);
    lemma_entry_bytes_len(b[0]);
    let (ta, tb) = (a.skip(1), b.skip(1));
    assert forall|i: int|
        #![trigger ta[i], tb[i]]
        0 <= i < ta.len() implies ta[i].data.len() <= tb[i].data.len() && ta[i].extensions
            == tb[i].extensions by {
        assert(ta[i] == a[i + 1] && tb[i] == b[i + 1]);
    }
    if k == 0 {
        lemma_entries_bytes_shrink(ta, tb);
    } else {
        assert(ta[k - 1] == a[k] && tb[k - 1] == b[k]);
        lemma_entries_bytes_shrink_strict(ta, tb, k - 1);
    }
}

/// Pass 1 never lengthens a payload with unambiguous entries, and it
/// shortens it strictly where the table knows one of its certificates.
pub proof fn lemma_pass1_shrinks(t: CertTable, b: Seq<u8>, k: int)
    requires
        t.wf(),
        parse_message(b) matches Ok(m) && entries_unambiguous(t@, m),
    ensures
        pass1_compress(t@, b) matches Ok(c) && c.len() <= b.len() && (parse_message(b) matches Ok(
            m,
        ) && 0 <= k < m.entries.len() && id_for_cert(t@, m.entries[k].data) is Some ==> c.len()
            < b.len()),
{
    lemma_pass1_round_trip(t, b);
    lemma_parse_message_inverse(b);
    let m = parse_message(b)->Ok_0;
    let p = t@;
    let out = compress_message(p, m);
    lemma_wf_pairs_ok(t);
    assert forall|i: int|
        #![trigger out.entries[i], m.entries[i]]
        0 <= i < out.entries.len() implies out.entries[i].data.len() <= m.entries[i].data.len()
            && out.entries[i].extensions == m.entries[i].extensions && (id_for_cert(
            p,
            m.entries[i].data,
        ) is Some ==> out.entries[i].data.len() < m.entries[i].data.len()) by {
        let e = m.entries[i];
        if let Some(id) = id_for_cert(p, e.data) {
            assert(cert_for_id(p, id) == Some(e.data));
            let j = choose|j: int| 0 <= j < p.len() && p[j].0 == id;
            assert(p[j].0.len() < p[j].1.len());
        }
    }
    lemma_entries_bytes_shrink(out.entries, m.entries);
    crate::tls::lemma_be_bytes_len(m.request_context.len(), 1);
    crate::tls::lemma_be_bytes_len(entries_bytes(m.entries).len(), 3);
    crate::tls::lemma_be_bytes_len(entries_bytes(out.entries).len(), 3);
    if 0 <= k < m.entries.len() && id_for_cert(p, m.entries[k].data) is Some {
        assert(out.entries[k].data.len() < m.entries[k].data.len());
        lemma_entries_bytes_shrink_strict(out.entries, m.entries, k);
    }
}

} // verus!
