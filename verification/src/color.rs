use vstd::prelude::*;
use vstd::string::StringExecFns;

verus! {

/// Stone color on the board.
#[derive(Clone, Copy, Debug, PartialEq, Eq, Structural)]
pub enum Color {
    Black,
    White,
}

impl Color {
    /// The other color.
    pub open spec fn opposite(self) -> Color {
        match self {
            Color::Black => Color::White,
            Color::White => Color::Black,
        }
    }

    /// The number of a color: 0 for black, 1 for white.
    pub open spec fn index_of(self) -> usize {
        match self {
            Color::Black => 0,
            Color::White => 1,
        }
    }
}

impl vstd::std_specs::convert::TryFromSpecImpl<usize> for Color {
    open spec fn obeys_try_from_spec() -> bool {
        true
    }

    open spec fn try_from_spec(value: usize) -> Result<Color, ()> {
        if value == 0 {
            Ok(Color::Black)
        } else if value == 1 {
            Ok(Color::White)
        } else {
            Err(())
        }
    }
}

impl TryFrom<usize> for Color {
    type Error = ();

    fn try_from(value: usize) -> (r: Result<Color, ()>)
        ensures
            value == 0 ==> r == Ok::<Color, ()>(Color::Black),
            value == 1 ==> r == Ok::<Color, ()>(Color::White),
            value >= 2 ==> r == Err::<Color, ()>(()),
    {
        if value == 0 {
            Ok(Color::Black)
        } else if value == 1 {
            Ok(Color::White)
        } else {
            Err(())
        }
    }
}

impl vstd::std_specs::convert::FromSpecImpl<Color> for usize {
    open spec fn obeys_from_spec() -> bool {
        true
    }

    open spec fn from_spec(value: Color) -> usize {
        value.index_of()
    }
}

impl From<Color> for usize {
    fn from(value: Color) -> (r: usize)
        ensures
            r == value.index_of(),
    {
        match value {
            Color::Black => 0,
            Color::White => 1,
        }
    }
}

impl vstd::std_specs::ops::NotSpecImpl for Color {
    open spec fn obeys_not_spec() -> bool {
        true
    }

    open spec fn not_req(self) -> bool {
        true
    }

    open spec fn not_spec(self) -> Color {
        self.opposite()
    }
}

impl core::ops::Not for Color {
    type Output = Color;

    fn not(self) -> (r: Color)
        ensures
            r == self.opposite(),
    {
        match self {
            Color::Black => Color::White,
            Color::White => Color::Black,
        }
    }
}

/// Collection indexed by `Color`.
#[derive(Clone, Copy, Debug, Default, PartialEq, Eq)]
pub struct ColorMap<V> {
    black: V,
    white: V,
}

impl<T> View for ColorMap<T> {
    /// The black entry, then the white one.
    type V = (T, T);

    closed spec fn view(&self) -> (T, T) {
        (self.black, self.white)
    }
}

impl<T> ColorMap<T> {
    /// The entry of a color.
    pub open spec fn at(self, c: Color) -> T {
        match c {
            Color::Black => self@.0,
            Color::White => self@.1,
        }
    }

    /// Returns the entry of a color.
    pub fn get(&self, c: Color) -> (r: &T)
        ensures
            *r == self.at(c),
    {
        match c {
            Color::Black => &self.black,
            Color::White => &self.white,
        }
    }

    /// Returns a `ColorMap` with function `f` applied to each element.
    /// Black is processed first, then White.
    pub fn map<U, F: FnMut(T) -> U>(self, f: F) -> (r: ColorMap<U>)
        requires
            call_requires(f, (self@.0,)),
            call_requires(f, (self@.1,)),
        ensures
            call_ensures(f, (self@.0,), r@.0),
            call_ensures(f, (self@.1,), r@.1),
    {
        let mut f = f;
        let ColorMap { black, white } = self;
        let black = f(black);
        let white = f(white);
        ColorMap { black, white }
    }

    /// Returns a `ColorMap` with function `f` applied to each element.
    /// Black is processed first, then White.
    pub fn map_ref<U, F: FnMut(&T) -> U>(&self, f: F) -> (r: ColorMap<U>)
        requires
            call_requires(f, (&self@.0,)),
            call_requires(f, (&self@.1,)),
        ensures
            call_ensures(f, (&self@.0,), r@.0),
            call_ensures(f, (&self@.1,), r@.1),
    {
        let mut f = f;
        let black = f(&self.black);
        let white = f(&self.white);
        ColorMap { black, white }
    }

    /// Borrows each held element and returns colormap of references.
    pub fn as_ref(&self) -> (r: ColorMap<&T>)
        ensures
            *r@.0 == self@.0,
            *r@.1 == self@.1,
    {
        ColorMap { black: &self.black, white: &self.white }
    }

    /// Convert the colormap to raw array.
    pub fn into_array(self) -> (r: [T; 2])
        ensures
            r@ == seq![self@.0, self@.1],
    {
        let ColorMap { black, white } = self;
        let r = [black, white];
        assert(r@ =~= seq![self@.0, self@.1]);
        r
    }

    /// Returns the content from perspective of given color.
    /// Complementary to `ColorMap::from_perspective`.
    pub fn into_perspective(self, color: Color) -> (r: (T, T))
        ensures
            r == (self.at(color), self.at(color.opposite())),
    {
        let ColorMap { black, white } = self;
        match color {
            Color::Black => (black, white),
            Color::White => (white, black),
        }
    }

    /// Constructs a ColorMap from the perspective of given color.
    /// Complementary to `ColorMap::into_perspective`.
    pub fn from_perspective(color: Color, own: T, other: T) -> (r: ColorMap<T>)
        ensures
            r.at(color) == own,
            r.at(color.opposite()) == other,
    {
        match color {
            Color::Black => ColorMap { black: own, white: other },
            Color::White => ColorMap { black: other, white: own },
        }
    }
}

impl<T> ColorMap<Vec<T>> {
    /// Pairs up the entries of the two held vectors position by position;
    /// stops at the end of the shorter one.
    pub fn zip(self) -> (r: Vec<ColorMap<T>>)
        ensures
            r@.len() == if self@.0@.len() <= self@.1@.len() {
                self@.0@.len()
            } else {
                self@.1@.len()
            },
            forall|i: int| 0 <= i < r@.len() ==> #[trigger] r@[i]@ == (self@.0@[i], self@.1@[i]),
    {
        let ColorMap { black, white } = self;
        let mut black = black;
        let mut white = white;
        let n = if black.len() <= white.len() {
            black.len()
        } else {
            white.len()
        };
        black.truncate(n);
        white.truncate(n);
        let ghost b0 = black@;
        let ghost w0 = white@;
        let mut reversed: Vec<ColorMap<T>> = Vec::new();
        while black.len() > 0
            invariant
                black@.len() == white@.len(),
                black@.len() + reversed@.len() == n,
                n == b0.len(),
                n == w0.len(),
                black@ == b0.take(black@.len() as int),
                white@ == w0.take(white@.len() as int),
                forall|j: int|
                    0 <= j < reversed@.len() ==> #[trigger] reversed@[j]@ == (
                        b0[n - 1 - j],
                        w0[n - 1 - j],
                    ),
            decreases black@.len(),
        {
            let b = black.pop().unwrap();
            let w = white.pop().unwrap();
            reversed.push(ColorMap { black: b, white: w });
            assert(black@ =~= b0.take(black@.len() as int));
            assert(white@ =~= w0.take(white@.len() as int));
        }
        let mut r: Vec<ColorMap<T>> = Vec::new();
        while reversed.len() > 0
            invariant
                reversed@.len() + r@.len() == n,
                forall|j: int|
                    0 <= j < reversed@.len() ==> #[trigger] reversed@[j]@ == (
                        b0[n - 1 - j],
                        w0[n - 1 - j],
                    ),
                forall|i: int| 0 <= i < r@.len() ==> #[trigger] r@[i]@ == (b0[i], w0[i]),
            decreases reversed@.len(),
        {
            let m = reversed.pop().unwrap();
            r.push(m);
        }
        r
    }
}

impl<T> vstd::std_specs::convert::FromSpecImpl<[T; 2]> for ColorMap<T> {
    open spec fn obeys_from_spec() -> bool {
        true
    }

    closed spec fn from_spec(v: [T; 2]) -> ColorMap<T> {
        ColorMap { black: v@[0], white: v@[1] }
    }
}

/// Splitting a two-element array into a pair keeps the order of the elements.
pub assume_specification<E>[ <(E, E) as core::convert::From<[E; 2]>>::from ](a: [E; 2]) -> (r: (
    E,
    E,
))
    ensures
        r.0 == a@[0],
        r.1 == a@[1],
;

impl<T> From<[T; 2]> for ColorMap<T> {
    fn from(values: [T; 2]) -> (r: ColorMap<T>)
        ensures
            r@ == (values@[0], values@[1]),
    {
        let (black, white) = <(T, T)>::from(values);
        ColorMap { black, white }
    }
}

impl<T> vstd::std_specs::convert::FromSpecImpl<ColorMap<T>> for [T; 2] {
    open spec fn obeys_from_spec() -> bool {
        true
    }

    open spec fn from_spec(v: ColorMap<T>) -> [T; 2] {
        [v@.0, v@.1]
    }
}

impl<T> From<ColorMap<T>> for [T; 2] {
    fn from(value: ColorMap<T>) -> (r: [T; 2])
        ensures
            r@ == seq![value@.0, value@.1],
    {
        value.into_array()
    }
}

impl<T> core::ops::Index<Color> for ColorMap<T> {
    type Output = T;

    fn index(&self, index: Color) -> (r: &T)
        ensures
            *r == self.at(index),
    {
        self.get(index)
    }
}

impl<T> core::ops::IndexMut<Color> for ColorMap<T> {
    fn index_mut(&mut self, index: Color) -> (r: &mut T)
        ensures
            *r == old(self).at(index),
            final(self).at(index) == *final(r),
            final(self).at(index.opposite()) == old(self).at(index.opposite()),
    {
        match index {
            Color::Black => &mut self.black,
            Color::White => &mut self.white,
        }
    }
}

impl<T> IntoIterator for ColorMap<T> {
    type Item = (Color, T);

    type IntoIter = std::vec::IntoIter<(Color, T)>;

    fn into_iter(self) -> (r: Self::IntoIter)
        ensures
            vstd::std_specs::iter::IteratorSpec::remaining(&r) == seq![
                (Color::Black, self@.0),
                (Color::White, self@.1),
            ],
    {
        broadcast use vstd::std_specs::vec::axiom_spec_into_iter;

        let ColorMap { black, white } = self;
        let v = vec![(Color::Black, black), (Color::White, white)];
        assert(v@ =~= seq![(Color::Black, self@.0), (Color::White, self@.1)]);
        v.into_iter()
    }
}

/// A color's number converts back to the color, the other color's number is one
/// minus it, and taking the other color twice gives the color back.
pub proof fn lemma_color_number(c: Color)
    ensures
        <Color as vstd::std_specs::convert::TryFromSpec<usize>>::try_from_spec(c.index_of())
            == Ok::<Color, ()>(c),
        c.opposite().index_of() == 1 - c.index_of(),
        c.opposite().opposite() == c,
        c.opposite() != c,
{
}

/// A colormap is determined by its entries from either color's perspective.
pub proof fn lemma_perspective<T>(m: ColorMap<T>, c: Color, own: T, other: T)
    requires
        m.at(c) == own,
        m.at(c.opposite()) == other,
    ensures
        m@ == (match c {
            Color::Black => (own, other),
            Color::White => (other, own),
        }),
{
}

/// `format!("{:?}", value)`: the `Debug` text of a value.
#[verifier::external_body]
fn debug_text<T: core::fmt::Debug>(value: &T) -> String {
    format!("{:?}", value)
}

impl<T: core::fmt::Debug> ColorMap<T> {
    /// Text of the colormap as a map from colors to entries: `{Black: .., White: ..}`,
    /// each entry in its `Debug` text.
    pub fn debug_format(&self) -> (r: String)
        ensures
            exists|b: Seq<char>, w: Seq<char>|
                r@ == "{Black: "@ + b + ", White: "@ + w + "}"@,
    {
        let black = debug_text(&self.black);
        let white = debug_text(&self.white);
        let mut r = String::from_str("{Black: ");
        r.append(black.as_str());
        r.append(", White: ");
        r.append(white.as_str());
        r.append("}");
        assert(r@ == "{Black: "@ + black@ + ", White: "@ + white@ + "}"@);
        r
    }
}

} // verus!
