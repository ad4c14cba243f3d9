//! Character n-grams for fuzzy channel-name lookup: the sliding windows of
//! a text and the padding that gives short texts enough of them.

use vstd::prelude::*;

verus! {

broadcast use vstd::string::group_string_axioms;

/// All windows of `window` consecutive characters of `text`, in order.
#[verifier::loop_isolation(false)]
pub fn char_windows(text: &str, window: usize) -> (r: Vec<String>)
    ensures
        ({
            let w = if window == 0 {
                1int
            } else {
                window as int
            };
            &&& r@.len() == (if text@.len() >= w {
                text@.len() - w + 1
            } else {
                0
            })
            &&& forall|k: int|
                0 <= k < r@.len() ==> (#[trigger] r@[k])@ == text@.subrange(k, k + w)
        }),
{
    let w: usize = if window == 0 {
        1
    } else {
        window
    };
    let n = text.unicode_len();
    let mut r: Vec<String> = Vec::new();
    if n < w {
        return r;
    }
    let mut k: usize = 0;
    while k <= n - w
        invariant
            w >= 1,
            w <= n == text@.len(),
            0 <= k <= n - w + 1,
            r@.len() == k,
            forall|j: int| 0 <= j < k ==> (#[trigger] r@[j])@ == text@.subrange(j, j + w as int),
        decreases n - w - k + 1,
    {
        let piece = text.substring_char(k, k + w).to_owned();
        r.push(piece);
        if k == n - w {
            break ;
        }
        k += 1;
    }
    r
}

/// The n-gram shape used to compare channel names: a window size of at
/// least one.
pub struct Ngram {
    pub window: usize,
}

impl Ngram {
    /// An n-gram of the given window, floored at one.
    pub fn new(window: usize) -> (r: Self)
        ensures
            r.window == (if window == 0 {
                1int
            } else {
                window as int
            }),
    {
        Ngram { window: if window == 0 {
            1
        } else {
            window
        } }
    }

    /// How much padding the window calls for on each side.
    pub open spec fn spec_pad(&self) -> int {
        self.window - 1
    }

    /// The text with `window - 1` spaces on each side, so that even a short
    /// text has windows.
    #[verifier::loop_isolation(false)]
    pub fn pad_str(&self, text: &str) -> (r: String)
        requires
            self.window >= 1,
        ensures
            r@ == Seq::new(self.spec_pad() as nat, |i: int| ' ') + text@ + Seq::new(
                self.spec_pad() as nat,
                |i: int| ' ',
            ),
    {
        let pad = self.window - 1;
        let mut r = String::new();
        let mut i: usize = 0;
        while i < pad
            invariant
                i <= pad,
                r@ =~= Seq::new(i as nat, |j: int| ' '),
            decreases pad - i,
        {
            r.push(' ');
            proof {
                assert(r@ =~= Seq::new(i as nat + 1, |j: int| ' '));
            }
            i += 1;
        }
        r.push_str(text);
        let mut k: usize = 0;
        let ghost mid = r@;
        while k < pad
            invariant
                k <= pad,
                r@ =~= mid + Seq::new(k as nat, |j: int| ' '),
            decreases pad - k,
        {
            r.push(' ');
            proof {
                assert(r@ =~= mid + Seq::new(k as nat + 1, |j: int| ' '));
            }
            k += 1;
        }
        r
    }

    /// The text with the padding taken back off.
    pub fn unpad_str<'a>(&self, padded_text: &'a str) -> (r: &'a str)
        requires
            self.window >= 1,
            padded_text@.len() >= 2 * self.spec_pad(),
        ensures
            r@ == padded_text@.subrange(
                self.spec_pad(),
                padded_text@.len() - self.spec_pad(),
            ),
    {
        let pad = self.window - 1;
        let n = padded_text.unicode_len();
        padded_text.substring_char(pad, n - pad)
    }
}

} // verus!
