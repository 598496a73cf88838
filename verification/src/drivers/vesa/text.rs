//! Lines of text drawn with the bitmap font.
use vstd::prelude::*;
use vstd::string::StrSliceExecFns;

use crate::drivers::framebuffer::{
    glyph_points, noto_glyph, Character, Drawable, Pixel, GLYPH_HEIGHT, GLYPH_WIDTH,
};

verus! {

/// The points of the characters `chars` set side by side from `(x, y)` on.
pub open spec fn text_points(chars: Seq<char>, x: int, y: usize) -> Seq<Pixel>
    decreases chars.len(),
{
    if chars.len() == 0 {
        Seq::empty()
    } else {
        glyph_points(noto_glyph(chars[0])->Some_0, x as usize, y) + text_points(chars.drop_first(), x + GLYPH_WIDTH, y)
    }
}

/// Every character of `chars` is in the font.
pub open spec fn all_in_font(chars: Seq<char>) -> bool {
    forall|i: int| 0 <= i < chars.len() ==> #[trigger] noto_glyph(chars[i]) is Some
}

/// A line of text with its top left corner at `at`.
pub struct Text {
    text: String,
    at: (usize, usize),
}

impl Text {
    /// The characters of the text.
    pub closed spec fn spec_text(&self) -> Seq<char> {
        self.text@
    }

    /// Its top left corner.
    pub closed spec fn spec_at(&self) -> (usize, usize) {
        self.at
    }

    pub fn new(text: String, x: usize, y: usize) -> (r: Self)
        ensures
            r.spec_text() == text@,
            r.spec_at() == (x, y),
    {
        Text { text, at: (x, y) }
    }

    /// The text `text` at `(x, y)`, or `None` where the font lacks one of
    /// its characters.
    pub fn try_new(text: String, x: usize, y: usize) -> (r: Option<Self>)
        ensures
            r is Some <==> all_in_font(text@),
            r matches Some(t) ==> t.spec_text() == text@ && t.spec_at() == (x, y),
    {
        let s = text.as_str();
        let n = s.unicode_len();
        let mut i: usize = 0;
        while i < n
            invariant
                i <= n,
                n == s@.len(),
                s@ == text@,
                forall|k: int| 0 <= k < i ==> #[trigger] noto_glyph(text@[k]) is Some,
            decreases n - i,
        {
            let c = s.get_char(i);
            if Character::try_new(c, 0, 0).is_none() {
                return None;
            }
            i = i + 1;
        }
        Some(Text { text, at: (x, y) })
    }
}

proof fn lemma_text_points_push(chars: Seq<char>, x: int, y: usize, c: char)
    ensures
        text_points(chars.push(c), x, y) == text_points(chars, x, y) + glyph_points(
            noto_glyph(c)->Some_0,
            (x + GLYPH_WIDTH * chars.len()) as usize,
            y,
        ),
    decreases chars.len(),
{
    if chars.len() == 0 {
        assert(chars.push(c).drop_first() =~= Seq::<char>::empty());
        assert(text_points(Seq::<char>::empty(), x + GLYPH_WIDTH, y) =~= Seq::<Pixel>::empty());
        assert(text_points(chars.push(c), x, y) =~= glyph_points(noto_glyph(c)->Some_0, x as usize, y));
    } else {
        assert(chars.push(c).drop_first() =~= chars.drop_first().push(c));
        lemma_text_points_push(chars.drop_first(), x + GLYPH_WIDTH, y, c);
        assert(text_points(chars.push(c), x, y) =~= text_points(chars, x, y) + glyph_points(
            noto_glyph(c)->Some_0,
            (x + GLYPH_WIDTH * chars.len()) as usize,
            y,
        ));
    }
}

impl Drawable for Text {
    /// Every character is in the font and the text fits the coordinates.
    open spec fn drawable(&self) -> bool {
        &&& all_in_font(self.spec_text())
        &&& self.spec_at().0 + GLYPH_WIDTH * self.spec_text().len() <= usize::MAX
        &&& self.spec_at().1 + GLYPH_HEIGHT <= usize::MAX
    }

    /// As wide as its characters together and as high as one of them.
    open spec fn spec_box(&self) -> (usize, usize, usize, usize) {
        let n = self.spec_text().len();
        (
            self.spec_at().0,
            self.spec_at().1,
            (self.spec_at().0 + GLYPH_WIDTH * n) as usize,
            (self.spec_at().1 + if n > 0 { GLYPH_HEIGHT } else { 0 }) as usize,
        )
    }

    /// The characters after the first one, side by side from the top left
    /// corner on.
    open spec fn spec_points(&self) -> Seq<Pixel> {
        if self.spec_text().len() == 0 {
            Seq::empty()
        } else {
            text_points(self.spec_text().drop_first(), self.spec_at().0 as int, self.spec_at().1)
        }
    }

    open spec fn spec_padding(&self) -> usize {
        0
    }

    fn draw_box(&self) -> (r: (usize, usize, usize, usize)) {
        let s = self.text.as_str();
        let n = s.unicode_len();
        let mut height: usize = 0;
        let mut width: usize = 0;
        let mut i: usize = 0;
        while i < n
            invariant
                i <= n,
                n == s@.len(),
                s@ == self.text@,
                all_in_font(self.text@),
                self.at.0 + GLYPH_WIDTH * n <= usize::MAX,
                width == GLYPH_WIDTH * i,
                height == if i > 0 { GLYPH_HEIGHT } else { 0 },
            decreases n - i,
        {
            let c = s.get_char(i);
            let ch = Character::new(c, 0, 0);
            let h = ch.height();
            if h > height {
                height = h;
            }
            width = width + ch.width();
            i = i + 1;
        }
        let (x, y) = self.at;
        (x, y, x + width, y + height)
    }

    fn points(&self) -> (r: Vec<Pixel>) {
        let s = self.text.as_str();
        let n = s.unicode_len();
        let mut r: Vec<Pixel> = Vec::new();
        if n == 0 {
            return r;
        }
        let (x, y) = self.at;
        let mut cx: usize = x;
        let mut i: usize = 1;
        while i < n
            invariant
                1 <= i <= n,
                n == s@.len(),
                s@ == self.text@,
                all_in_font(self.text@),
                (x, y) == self.at,
                x + GLYPH_WIDTH * n <= usize::MAX,
                y + GLYPH_HEIGHT <= usize::MAX,
                cx == x + GLYPH_WIDTH * (i - 1),
                r@ == text_points(self.text@.subrange(1, i as int), x as int, y),
            decreases n - i,
        {
            let c = s.get_char(i);
            let ch = Character::new(c, cx, y);
            let mut pts = ch.points();
            proof {
                lemma_text_points_push(self.text@.subrange(1, i as int), x as int, y, c);
                assert(self.text@.subrange(1, i as int).push(c) =~= self.text@.subrange(1, i + 1));
            }
            r.append(&mut pts);
            cx = cx + GLYPH_WIDTH;
            i = i + 1;
        }
        proof {
            assert(self.text@.subrange(1, n as int) =~= self.text@.drop_first());
        }
        r
    }

    fn padding(&self) -> (r: usize) {
        0
    }
}

} // verus!
