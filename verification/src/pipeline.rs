use crate::codec::{decompress_payload, decompressible, lzf_decompressed, MAX_DECOMPRESSED_LEN};
use crate::encoding::{lemma_ascii_bytes_valid_utf8, string_from_bytes};
use crate::error::SaveEditorError;
use crate::rewriter::{
    lemma_rewrite_idempotent, lemma_rewritten_valid, lines_of, push_range, rewrite_line,
    rewritten_header, substitute_header_key,
};
use crate::scanner::{header_end, header_length};
use vstd::prelude::*;
use vstd::utf8::{encode_utf8, valid_utf8};

verus! {

/// The decimal digits of `n`, most significant first, as ASCII bytes.
pub open spec fn dec_rep(n: nat) -> Seq<u8>
    decreases n,
{
    if n < 10 {
        seq![(48 + n) as u8]
    } else {
        dec_rep(n / 10) + seq![(48 + (n % 10)) as u8]
    }
}

/// Every byte of a decimal representation is an ASCII digit.
pub proof fn lemma_dec_rep_digits(n: nat)
    ensures
        forall|i: int| 0 <= i < dec_rep(n).len() ==> 48 <= #[trigger] dec_rep(n)[i] <= 57,
    decreases n,
{
    if n < 10 {
        assert(dec_rep(n) == seq![(48 + n) as u8]);
        assert(48 <= (48 + n) as u8 <= 57);
    } else {
        lemma_dec_rep_digits(n / 10);
        let pre = dec_rep(n / 10);
        let last = (48 + (n % 10)) as u8;
        assert(n % 10 < 10) by (nonlinear_arith);
        assert(48 <= last <= 57);
        assert(dec_rep(n) == pre + seq![last]);
        assert forall|i: int| 0 <= i < dec_rep(n).len() implies 48 <= #[trigger] dec_rep(n)[i]
            <= 57 by {
            if i < pre.len() {
                assert(dec_rep(n)[i] == pre[i]);
            } else {
                assert(dec_rep(n)[i] == last);
            }
        }
    }
}

/// A decimal representation is valid UTF-8 and holds no newline.
pub proof fn lemma_dec_rep_text(n: nat)
    ensures
        valid_utf8(dec_rep(n)),
        !dec_rep(n).contains(10u8),
{
    lemma_dec_rep_digits(n);
    lemma_ascii_bytes_valid_utf8(dec_rep(n));
    if dec_rep(n).contains(10u8) {
        let w = choose|j: int| 0 <= j < dec_rep(n).len() && dec_rep(n)[j] == 10u8;
        assert(48 <= dec_rep(n)[w] <= 57);
    }
}

/// Writes `n` in decimal, most significant digit first.
fn u64_to_dec(n: u64) -> (r: Vec<u8>)
    ensures
        r@ == dec_rep(n as nat),
    decreases n,
{
    let d = (n % 10) as u8 + 48;
    if n < 10 {
        let mut v: Vec<u8> = Vec::new();
        v.push(d);
        proof {
            assert(v@ =~= dec_rep(n as nat));
        }
        v
    } else {
        assert(n / 10 < n) by (nonlinear_arith)
            requires
                n >= 10,
        ;
        let mut v = u64_to_dec(n / 10);
        v.push(d);
        proof {
            assert(v@ =~= dec_rep(n as nat));
        }
        v
    }
}

/// Renders `n` in decimal as a string.
fn dec_string(n: u64) -> (s: String)
    ensures
        encode_utf8(s@) == dec_rep(n as nat),
{
    let digits = u64_to_dec(n);
    proof {
        lemma_dec_rep_text(n as nat);
    }
    match string_from_bytes(digits) {
        Some(s) => s,
        None => vstd::pervasive::unreached(),
    }
}

/// The header field that declares the decompressed payload size.
pub open spec fn data_size_key() -> Seq<u8> {
    encode_utf8("DataSize"@)
}

/// The header field that declares the compressed payload size.
pub open spec fn save_data_size_key() -> Seq<u8> {
    encode_utf8("SaveDataSize"@)
}

/// The two size-field keys are single-line ASCII text: valid UTF-8 holding
/// no newline byte.
pub proof fn lemma_size_keys_text()
    ensures
        valid_utf8(data_size_key()),
        valid_utf8(save_data_size_key()),
        !data_size_key().contains(10u8),
        !save_data_size_key().contains(10u8),
{
    broadcast use vstd::utf8::encode_utf8_valid_utf8;
    broadcast use vstd::utf8::is_ascii_chars_encode_utf8;

    reveal_strlit("DataSize");
    reveal_strlit("SaveDataSize");
    let d = "DataSize"@;
    let s = "SaveDataSize"@;
    assert(vstd::utf8::is_ascii_chars(d));
    assert(vstd::utf8::is_ascii_chars(s));
    if data_size_key().contains(10u8) {
        let w = choose|j: int| 0 <= j < data_size_key().len() && data_size_key()[j] == 10u8;
        assert(d[w] as u8 == 10);
    }
    if save_data_size_key().contains(10u8) {
        let w = choose|j: int|
            0 <= j < save_data_size_key().len() && save_data_size_key()[j] == 10u8;
        assert(s[w] as u8 == 10);
    }
}

/// Law (idempotent size refresh): rewriting a size field with the same
/// decimal length twice in a row yields the same header both times. The one
/// exception is a header whose last line is empty and does not match the
/// key: its rewrite ends in a newline, which reads back as a terminator.
pub proof fn lemma_size_refresh_idempotent(h: Seq<u8>, len: nat)
    requires
        lines_of(h).len() > 0 ==> rewrite_line(
            lines_of(h).last(),
            save_data_size_key(),
            dec_rep(len),
        ).len() > 0,
    ensures
        rewritten_header(
            rewritten_header(h, save_data_size_key(), dec_rep(len)),
            save_data_size_key(),
            dec_rep(len),
        ) == rewritten_header(h, save_data_size_key(), dec_rep(len)),
{
    lemma_size_keys_text();
    lemma_dec_rep_text(len);
    lemma_rewrite_idempotent(h, save_data_size_key(), dec_rep(len));
}

/// Splits a container at the header/payload boundary the scanner finds,
/// returning the header bytes and the compressed payload bytes.
pub fn split_container(data: &Vec<u8>) -> (r: Result<(Vec<u8>, Vec<u8>), SaveEditorError>)
    ensures
        r matches Ok(hp) ==> {
            &&& header_end(data@) == Some(hp.0@.len() as int)
            &&& hp.0@ == data@.subrange(0, hp.0@.len() as int)
            &&& hp.1@ == data@.subrange(hp.0@.len() as int, data@.len() as int)
        },
        r is Err <==> header_end(data@) is None,
        r matches Err(e) ==> e == SaveEditorError::BadFormat,
{
    let n = header_length(data)?;
    let mut header: Vec<u8> = Vec::new();
    push_range(&mut header, data, 0, n);
    let mut payload: Vec<u8> = Vec::new();
    push_range(&mut payload, data, n, data.len());
    proof {
        assert(header@ =~= data@.subrange(0, n as int));
        assert(payload@ =~= data@.subrange(n as int, data@.len() as int));
    }
    Ok((header, payload))
}

/// Loads a container: splits it at the header/payload boundary and
/// decompresses the payload within the size bound. Returns the header bytes
/// and the decompressed payload bytes.
pub fn open_container(data: &Vec<u8>) -> (r: Result<(Vec<u8>, Vec<u8>), SaveEditorError>)
    ensures
        r matches Ok(hp) ==> {
            &&& header_end(data@) == Some(hp.0@.len() as int)
            &&& hp.0@ == data@.subrange(0, hp.0@.len() as int)
            &&& lzf_decompressed(data@.subrange(hp.0@.len() as int, data@.len() as int)) == Some(
                hp.1@,
            )
            &&& hp.1@.len() <= MAX_DECOMPRESSED_LEN
        },
        r is Err <==> (header_end(data@) is None || (header_end(data@) matches Some(o)
            && !decompressible(
            data@.subrange(o, data@.len() as int),
            MAX_DECOMPRESSED_LEN as int,
        ))),
        r matches Err(e) ==> e == SaveEditorError::BadFormat,
{
    let (header, payload) = split_container(data)?;
    let plain = decompress_payload(&payload)?;
    Ok((header, plain))
}

/// The header after both size fields are refreshed: the decompressed-size
/// field is set to the edited payload's length and the compressed-size
/// field to the recompressed payload's length.
pub open spec fn refreshed_header(header: Seq<u8>, edited_len: nat, compressed_len: nat) -> Seq<
    u8,
> {
    rewritten_header(
        rewritten_header(header, data_size_key(), dec_rep(edited_len)),
        save_data_size_key(),
        dec_rep(compressed_len),
    )
}

/// True when the two byte vectors hold the same bytes.
fn bytes_eq(a: &Vec<u8>, b: &Vec<u8>) -> (r: bool)
    ensures
        r == (a@ == b@),
{
    if a.len() != b.len() {
        return false;
    }
    let n = a.len();
    let mut i: usize = 0;
    while i < n
        invariant
            0 <= i <= n,
            n == a@.len() == b@.len(),
            forall|q: int| 0 <= q < i ==> a@[q] == b@[q],
        decreases n - i,
    {
        if a[i] != b[i] {
            return false;
        }
        i = i + 1;
    }
    proof {
        assert(a@ =~= b@);
    }
    true
}

/// Rebuilds a container around an edited payload and its recompression:
/// checks that the compressed bytes decompress, within the size bound, to
/// exactly the edited payload, rewrites the two size fields of the header
/// to the edited and compressed lengths, and concatenates the refreshed
/// header with the compressed payload. Fails with `BadFormat` when the
/// header is not valid UTF-8 text or the compressed bytes do not decode to
/// the edited payload within the bound, so the declared sizes of a rebuilt
/// container always match the payload that follows them.
pub fn rebuild_container(header: Vec<u8>, edited: &Vec<u8>, compressed: Vec<u8>) -> (r: Result<
    Vec<u8>,
    SaveEditorError,
>)
    ensures
        r is Ok <==> (valid_utf8(header@) && decompressible(
            compressed@,
            MAX_DECOMPRESSED_LEN as int,
        ) && lzf_decompressed(compressed@) == Some(edited@)),
        r matches Ok(out) ==> out@ == refreshed_header(
            header@,
            edited@.len() as nat,
            compressed@.len() as nat,
        ) + compressed@,
        r matches Err(e) ==> e == SaveEditorError::BadFormat,
{
    let decoded = decompress_payload(&compressed)?;
    if !bytes_eq(&decoded, edited) {
        return Err(SaveEditorError::BadFormat);
    }
    let data_size = dec_string(edited.len() as u64);
    let h1 = substitute_header_key(header, "DataSize".to_owned(), data_size)?;
    proof {
        lemma_dec_rep_text(edited@.len() as nat);
        broadcast use vstd::utf8::encode_utf8_valid_utf8;

        lemma_rewritten_valid(header@, data_size_key(), dec_rep(edited@.len() as nat));
    }
    let save_size = dec_string(compressed.len() as u64);
    // The first rewrite only succeeds on a valid UTF-8 header, and rewriting
    // preserves validity, so the second rewrite cannot fail.
    let h2 = match substitute_header_key(h1, "SaveDataSize".to_owned(), save_size) {
        Ok(h2) => h2,
        Err(_) => vstd::pervasive::unreached(),
    };
    let mut out = h2;
    push_range(&mut out, &compressed, 0, compressed.len());
    proof {
        assert(compressed@.subrange(0, compressed@.len() as int) =~= compressed@);
    }
    Ok(out)
}

} // verus!
