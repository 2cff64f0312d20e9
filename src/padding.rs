//! Block padding to the 16-byte boundary of the field cipher.
use vstd::prelude::*;

verus! {

/// Size of a cipher block, in bytes.
pub const BLOCK_LEN: usize = 16;

/// `data` followed by `n` bytes of value `n`, where `n` in `1..=16` brings the
/// length to the next multiple of the block size.
pub open spec fn pad_spec(data: Seq<u8>) -> Seq<u8> {
    let n = 16 - data.len() % 16;
    data + Seq::new(n as nat, |_i: int| n as u8)
}

/// What stands before the padding, or `None` where the last byte is not a
/// padding length in `1..=16` that fits in the buffer.
pub open spec fn unpad_spec(buf: Seq<u8>) -> Option<Seq<u8>> {
    if buf.len() == 0 {
        None
    } else {
        let n = buf.last() as int;
        if n < 1 || n > 16 || n > buf.len() {
            None
        } else {
            Some(buf.take(buf.len() - n))
        }
    }
}

/// Unpadding undoes padding.
pub proof fn lemma_unpad_pad(data: Seq<u8>)
    ensures
        unpad_spec(pad_spec(data)) == Some(data),
        pad_spec(data).len() % 16 == 0,
        pad_spec(data).len() > data.len(),
{
    let p = pad_spec(data);
    let n = 16 - data.len() % 16;
    assert(p.last() == n as u8);
    assert(p.take(p.len() - n) =~= data);
}

/// Pads `data` up to the next block boundary; a full block is added where
/// `data` already ends on one.
pub fn pad(data: &[u8]) -> (r: Vec<u8>)
    ensures
        r@ == pad_spec(data@),
{
    let n: usize = BLOCK_LEN - data.len() % BLOCK_LEN;
    let mut out: Vec<u8> = Vec::new();
    let mut i: usize = 0;
    while i < data.len()
        invariant
            i <= data@.len(),
            out@ == data@.take(i as int),
        decreases data@.len() - i,
    {
        out.push(data[i]);
        i = i + 1;
        assert(out@ =~= data@.take(i as int));
    }
    let mut k: usize = 0;
    while k < n
        invariant
            n == 16 - data@.len() % 16,
            k <= n,
            out@ =~= data@ + Seq::new(k as nat, |_i: int| n as u8),
        decreases n - k,
    {
        out.push(n as u8);
        k = k + 1;
        assert(out@ =~= data@ + Seq::new(k as nat, |_i: int| n as u8));
    }
    out
}

/// Strips the padding of a decrypted buffer, or `None` where it is malformed.
pub fn unpad(buf: Vec<u8>) -> (r: Option<Vec<u8>>)
    ensures
        match r {
            Some(v) => unpad_spec(buf@) == Some(v@),
            None => unpad_spec(buf@) is None,
        },
{
    let len = buf.len();
    if len == 0 {
        return None;
    }
    let n = buf[len - 1] as usize;
    if n < 1 || n > BLOCK_LEN || n > len {
        return None;
    }
    let mut out = buf;
    out.truncate(len - n);
    Some(out)
}

} // verus!
