//! PKCS#7 padding.
use vstd::prelude::*;

verus! {

/// The number of padding bytes PKCS#7 adds to `len` bytes for blocks of
/// `blocksize`: between one and `blocksize`.
pub open spec fn pkcs7_padding(len: nat, blocksize: nat) -> nat {
    (blocksize - len % blocksize) as nat
}

/// Pads `block` to a multiple of `blocksize` by appending `p` bytes of value
/// `p`, where `p` is `blocksize` minus the length modulo `blocksize`; a whole
/// block of padding is added to a length that is already a multiple.
pub fn pkcs7(block: &mut Vec<u8>, blocksize: u8)
    requires
        blocksize > 0,
    ensures
        final(block)@ == old(block)@ + Seq::new(
            pkcs7_padding(old(block)@.len(), blocksize as nat),
            |_i: int| pkcs7_padding(old(block)@.len(), blocksize as nat) as u8,
        ),
{
    let padding: u8 = blocksize - (block.len() % (blocksize as usize)) as u8;
    let ghost start = block@;
    let mut added: u8 = 0;
    while added < padding
        invariant
            padding as nat == pkcs7_padding(start.len(), blocksize as nat),
            added <= padding,
            block@ == start + Seq::new(added as nat, |_i: int| padding),
        decreases padding - added,
    {
        block.push(padding);
        added = added + 1;
        assert(block@ =~= start + Seq::new(added as nat, |_i: int| padding));
    }
    assert(block@ =~= start + Seq::new(
        pkcs7_padding(start.len(), blocksize as nat),
        |_i: int| pkcs7_padding(start.len(), blocksize as nat) as u8,
    ));
}

} // verus!
