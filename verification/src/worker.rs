use vstd::prelude::*;

verus! {

/// One rendered pixel: column `i`, row `j` and its red, green and blue bytes.
#[derive(Debug, Clone, Copy)]
pub struct Pixel {
    pub i: usize,
    pub j: usize,
    pub rgb: [u8; 3],
}

/// What the render worker tells the display.
#[derive(Debug, Clone)]
pub enum WorkerMessage {
    /// A new image of the given size begins.
    Init { image_width: usize, image_height: usize },
    /// One freshly rendered row of the image.
    Scanline { pixels: Vec<Pixel> },
}

/// What the display tells the render worker: start rendering with a
/// configuration, or stop.
#[derive(Debug, Clone)]
pub enum MainMessage<C> {
    Config(C),
    Close,
}

/// The configurations among `messages` that come before the first `Close`,
/// in the order received.
pub open spec fn configs_before_close<C>(messages: Seq<MainMessage<C>>) -> Seq<C>
    decreases messages.len(),
{
    if messages.len() == 0 {
        Seq::empty()
    } else {
        match messages[0] {
            MainMessage::Close => Seq::empty(),
            MainMessage::Config(c) => seq![c] + configs_before_close(messages.drop_first()),
        }
    }
}

/// Some message in `messages` asks the worker to stop.
pub open spec fn asks_to_close<C>(messages: Seq<MainMessage<C>>) -> bool {
    exists|k: int| 0 <= k < messages.len() && #[trigger] messages[k] is Close
}

/// Reading one more message that is not `Close` extends the accepted
/// configurations by that message's configuration, if it has one.
proof fn lemma_configs_step<C>(messages: Seq<MainMessage<C>>, k: int)
    requires
        0 <= k < messages.len(),
        forall|m: int| 0 <= m < k ==> !(#[trigger] messages[m] is Close),
    ensures
        configs_before_close(messages.take(k + 1)) == match messages[k] {
            MainMessage::Close => configs_before_close(messages.take(k)),
            MainMessage::Config(c) => configs_before_close(messages.take(k)).push(c),
        },
    decreases k,
{
    if k > 0 {
        let rest = messages.drop_first();
        assert forall|m: int| 0 <= m < k - 1 implies !(#[trigger] rest[m] is Close) by {
            assert(rest[m] == messages[m + 1]);
        }
        lemma_configs_step(rest, k - 1);
        assert(rest[k - 1] == messages[k]);
        assert(!(messages[0] is Close));
        assert(messages.take(k + 1).drop_first() == rest.take(k));
        assert(messages.take(k).drop_first() == rest.take(k - 1));
        assert(messages.take(k + 1)[0] == messages[0]);
        assert(messages.take(k)[0] == messages[0]);
        match messages[0] {
            MainMessage::Close => {},
            MainMessage::Config(c) => {
                match messages[k] {
                    MainMessage::Close => {},
                    MainMessage::Config(d) => {
                        assert(seq![c] + configs_before_close(rest.take(k - 1)).push(d)
                            == (seq![c] + configs_before_close(rest.take(k - 1))).push(d));
                    },
                }
            },
        }
    } else {
        assert(messages.take(1).drop_first() == Seq::<MainMessage<C>>::empty());
        assert(messages.take(0) == Seq::<MainMessage<C>>::empty());
        assert(messages.take(1)[0] == messages[0]);
        assert(configs_before_close(Seq::<MainMessage<C>>::empty()) == Seq::<C>::empty());
        match messages[0] {
            MainMessage::Close => {},
            MainMessage::Config(c) => {
                assert(seq![c] + Seq::<C>::empty() == Seq::<C>::empty().push(c));
            },
        }
    }
}

/// Once the first `Close` is read, nothing after it matters.
proof fn lemma_configs_stop<C>(messages: Seq<MainMessage<C>>, k: int)
    requires
        0 <= k <= messages.len(),
        forall|m: int| 0 <= m < k ==> !(#[trigger] messages[m] is Close),
        k == messages.len() || messages[k] is Close,
    ensures
        configs_before_close(messages) == configs_before_close(messages.take(k)),
    decreases k,
{
    if k == 0 {
        if messages.len() > 0 {
            assert(messages[0] is Close);
        }
    } else {
        let rest = messages.drop_first();
        assert forall|m: int| 0 <= m < k - 1 implies !(#[trigger] rest[m] is Close) by {
            assert(rest[m] == messages[m + 1]);
        }
        if k - 1 < rest.len() {
            assert(rest[k - 1] == messages[k]);
        }
        lemma_configs_stop(rest, k - 1);
        assert(messages.take(k).drop_first() == rest.take(k - 1));
        assert(messages.take(k)[0] == messages[0]);
    }
}

/// What the worker does with the messages waiting for it: start a fresh
/// render for each configuration, in order, and stop at the first `Close`,
/// ignoring whatever came after it. Returns the configurations to start and
/// whether to stop.
pub fn process_messages<C>(messages: Vec<MainMessage<C>>) -> (plan: (Vec<C>, bool))
    ensures
        plan.0@ == configs_before_close(messages@),
        plan.1 == asks_to_close(messages@),
{
    let ghost all = messages@;
    let mut configs: Vec<C> = Vec::new();
    let mut k: usize = 0;
    let len = messages.len();
    // The messages in reverse order, so that popping yields them first to last.
    let mut pending = messages;
    let mut rest: Vec<MainMessage<C>> = Vec::new();
    while pending.len() > 0
        invariant
            len == all.len(),
            pending.len() + rest.len() == len,
            pending@ == all.take(pending.len() as int),
            forall|m: int| 0 <= m < rest.len() ==> #[trigger] rest@[m] == all[len - 1 - m],
        decreases pending.len(),
    {
        let message = pending.pop().unwrap();
        rest.push(message);
    }
    assert(configs_before_close(all.take(0)) == Seq::<C>::empty());
    while k < len
        invariant
            all == messages@,
            len == all.len(),
            k <= len,
            rest.len() == len - k,
            forall|m: int| 0 <= m < rest.len() ==> #[trigger] rest@[m] == all[len - 1 - m],
            forall|m: int| 0 <= m < k ==> !(#[trigger] all[m] is Close),
            configs@ == configs_before_close(all.take(k as int)),
        decreases len - k,
    {
        let message = rest.pop().unwrap();
        assert(message == all[k as int]);
        proof {
            lemma_configs_step(all, k as int);
        }
        match message {
            MainMessage::Close => {
                proof {
                    assert(all[k as int] is Close);
                    lemma_configs_stop(all, k as int);
                }
                return (configs, true);
            },
            MainMessage::Config(c) => {
                configs.push(c);
            },
        }
        k = k + 1;
    }
    proof {
        lemma_configs_stop(all, k as int);
        assert(all.take(k as int) == all);
    }
    (configs, false)
}


/// Where a render worker stands in its endless sweep over an image: the row
/// it renders next and the number of passes over the whole image already
/// completed.
#[derive(Debug, Clone, Copy)]
pub struct ScanlineProgress {
    image_width: usize,
    image_height: usize,
    scanline: usize,
    iterations: usize,
}

impl ScanlineProgress {
    #[verifier::type_invariant]
    spec fn well_formed(self) -> bool {
        self.scanline < self.image_height
    }

    /// Width of the image, in pixels.
    pub closed spec fn width(self) -> nat {
        self.image_width as nat
    }

    /// Height of the image, in pixels.
    pub closed spec fn height(self) -> nat {
        self.image_height as nat
    }

    /// The row rendered next.
    pub closed spec fn row(self) -> nat {
        self.scanline as nat
    }

    /// The number of completed passes over the image.
    pub closed spec fn pass(self) -> nat {
        self.iterations as nat
    }

    /// A sweep over an image of the given size, about to render its first row
    /// for the first time.
    pub fn new(image_width: usize, image_height: usize) -> (progress: Self)
        requires
            image_height > 0,
        ensures
            progress.width() == image_width,
            progress.height() == image_height,
            progress.row() == 0,
            progress.pass() == 0,
    {
        ScanlineProgress { image_width, image_height, scanline: 0, iterations: 0 }
    }

    /// The row rendered next.
    pub fn scanline(&self) -> (j: usize)
        ensures
            j == self.row(),
    {
        self.scanline
    }

    /// The number of completed passes, which is also the sample number of the
    /// row rendered next.
    pub fn iterations(&self) -> (n: usize)
        ensures
            n == self.pass(),
    {
        self.iterations
    }

    /// Turns the colours rendered for the current row, left to right, into
    /// pixels and moves on to the next row, or to the top row of the next
    /// pass after the last one.
    pub fn render_scanline(&mut self, rgbs: Vec<[u8; 3]>) -> (pixels: Vec<Pixel>)
        requires
            rgbs.len() == old(self).width(),
            old(self).row() + 1 >= old(self).height() ==> old(self).pass() < usize::MAX,
        ensures
            pixels.len() == old(self).width(),
            forall|k: int| 0 <= k < pixels.len() ==> #[trigger] pixels[k] == (Pixel {
                i: k as usize,
                j: old(self).row() as usize,
                rgb: rgbs[k],
            }),
            final(self).width() == old(self).width(),
            final(self).height() == old(self).height(),
            final(self).row() < final(self).height(),
            old(self).row() + 1 < old(self).height() ==> final(self).row() == old(self).row() + 1
                && final(self).pass() == old(self).pass(),
            old(self).row() + 1 >= old(self).height() ==> final(self).row() == 0
                && final(self).pass() == old(self).pass() + 1,
            final(self).pass() * final(self).height() + final(self).row()
                == old(self).pass() * old(self).height() + old(self).row() + 1,
    {
        proof {
            use_type_invariant(&*self);
        }
        let width = rgbs.len();
        let j = self.scanline;
        let mut pixels: Vec<Pixel> = Vec::with_capacity(width);
        for i in 0..width
            invariant
                width == rgbs.len(),
                pixels.len() == i,
                forall|k: int| 0 <= k < i ==> #[trigger] pixels[k] == (Pixel { i: k as usize, j, rgb: rgbs[k] }),
        {
            pixels.push(Pixel { i, j, rgb: rgbs[i] });
        }
        let ghost h = self.image_height as int;
        let ghost n = self.iterations as int;
        if self.scanline + 1 >= self.image_height {
            self.scanline = 0;
            self.iterations = self.iterations + 1;
            proof {
                assert((n + 1) * h == n * h + h) by (nonlinear_arith);
            }
        } else {
            self.scanline = self.scanline + 1;
        }
        pixels
    }
}

} // verus!
