use vstd::prelude::*;

verus! {

/// Number of pixels that the renderer sends to the page in one message.
pub const BATCH_AMOUNT: usize = 100;

/// The 32-bit word of an opaque pixel as the canvas reads it: alpha 255 in
/// the top byte, then blue, green and red.
pub open spec fn spec_pack_color(rgb: [u8; 3]) -> u32 {
    (0xff00_0000 + rgb[2] * 0x1_0000 + rgb[1] * 0x100 + rgb[0]) as u32
}

/// Packs a pixel colour into the word that the canvas reads.
pub fn pack_color(rgb: [u8; 3]) -> (word: u32)
    ensures
        word == spec_pack_color(rgb),
        word == 0xff00_0000 + rgb[2] * 0x1_0000 + rgb[1] * 0x100 + rgb[0],
{
    let r = rgb[0];
    let g = rgb[1];
    let b = rgb[2];
    let word: u32 = (255u32 << 24u32) | ((b as u32) << 16u32) | ((g as u32) << 8u32) | (r as u32);
    assert(word == 0xff00_0000 + b * 0x1_0000 + g * 0x100 + r) by (bit_vector)
        requires
            word == (255u32 << 24u32) | ((b as u32) << 16u32) | ((g as u32) << 8u32) | (r as u32),
    ;
    word
}

/// The three words that stand for one pixel in a message: its column, its row
/// and its packed colour.
pub open spec fn pixel_words(i: usize, j: usize, rgb: [u8; 3]) -> Seq<u32> {
    seq![i as u32, j as u32, spec_pack_color(rgb)]
}

/// Pixels gathered for the next message to the page.
#[derive(Debug)]
pub struct PixelBatch {
    batch: Vec<u32>,
    batch_amount: usize,
}

impl PixelBatch {
    #[verifier::type_invariant]
    spec fn well_formed(self) -> bool {
        &&& 1 <= self.batch_amount
        &&& 3 * self.batch_amount <= usize::MAX
        &&& self.batch@.len() % 3 == 0
        &&& self.batch@.len() < 3 * self.batch_amount
    }

    /// The words gathered so far and not yet sent.
    pub closed spec fn pending(self) -> Seq<u32> {
        self.batch@
    }

    /// Number of pixels per message.
    pub closed spec fn amount(self) -> nat {
        self.batch_amount as nat
    }

    /// An empty batch that is sent once it holds `batch_amount` pixels.
    pub fn new(batch_amount: usize) -> (batch: Self)
        requires
            1 <= batch_amount,
            3 * batch_amount <= usize::MAX,
        ensures
            batch.pending() == Seq::<u32>::empty(),
            batch.amount() == batch_amount,
    {
        PixelBatch { batch: Vec::with_capacity(3 * batch_amount), batch_amount }
    }

    /// Adds a pixel. When the batch is full, hands back its words, exactly
    /// `3 * batch_amount` of them, to be sent, and starts an empty one.
    pub fn push(&mut self, i: usize, j: usize, rgb: [u8; 3]) -> (full: Option<Vec<u32>>)
        ensures
            final(self).amount() == old(self).amount(),
            old(self).pending().len() + 3 >= 3 * old(self).amount() ==> {
                &&& full matches Some(words)
                &&& words@ == old(self).pending() + pixel_words(i, j, rgb)
                &&& words@.len() == 3 * old(self).amount()
                &&& final(self).pending() == Seq::<u32>::empty()
            },
            old(self).pending().len() + 3 < 3 * old(self).amount() ==> {
                &&& full is None
                &&& final(self).pending() == old(self).pending() + pixel_words(i, j, rgb)
            },
    {
        proof {
            use_type_invariant(&*self);
        }
        let color = pack_color(rgb);
        let ghost before = self.batch@;
        let mut batch: Vec<u32> = Vec::new();
        std::mem::swap(&mut batch, &mut self.batch);
        batch.push(i as u32);
        batch.push(j as u32);
        batch.push(color);
        assert(batch@ == before + pixel_words(i, j, rgb));
        if batch.len() >= 3 * self.batch_amount {
            self.batch = Vec::with_capacity(3 * self.batch_amount);
            Some(batch)
        } else {
            self.batch = batch;
            None
        }
    }
}

} // verus!
