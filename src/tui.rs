//! Drawable elements: plain text, emphasized text and bordered containers.
use vstd::prelude::*;

verus! {

/// Width and height of an element, in character cells.
#[derive(Clone, Copy, Debug, PartialEq, Eq, Structural)]
pub struct Dimensions {
    pub width: usize,
    pub height: usize,
}

/// A leaf that renders its text as it is.
pub struct Text {
    pub text: String,
}

/// A leaf that renders its text in bold.
pub struct Heading {
    pub text: String,
}

/// A box drawn around its children, one child per row.
pub struct Container {
    pub children: Vec<Element>,
}

/// Any drawable element.
pub enum Element {
    Text(Text),
    Heading(Heading),
    Container(Container),
}

/// The width of an element: the character count of a leaf's text, or two
/// border columns plus the widest child for a container.
pub open spec fn width_of(e: Element) -> nat
    decreases e,
{
    match e {
        Element::Text(t) => t.text@.len(),
        Element::Heading(h) => h.text@.len(),
        Element::Container(c) => max_width_of(c.children@) + 2,
    }
}

/// The largest width among `s`, or 0 when `s` is empty.
pub open spec fn max_width_of(s: Seq<Element>) -> nat
    decreases s,
{
    if s.len() == 0 {
        0
    } else {
        let w = width_of(s.last());
        let m = max_width_of(s.drop_last());
        if m >= w {
            m
        } else {
            w
        }
    }
}

/// The height of an element: one row for a leaf, the sum of the children's
/// heights for a container (its border rows are not counted).
pub open spec fn height_of(e: Element) -> nat
    decreases e,
{
    match e {
        Element::Text(_) => 1,
        Element::Heading(_) => 1,
        Element::Container(c) => sum_height_of(c.children@),
    }
}

/// The sum of the heights of `s`.
pub open spec fn sum_height_of(s: Seq<Element>) -> nat
    decreases s,
{
    if s.len() == 0 {
        0
    } else {
        sum_height_of(s.drop_last()) + height_of(s.last())
    }
}

/// Both dimensions of `e` can be held in a `usize`.
pub open spec fn fits(e: Element) -> bool {
    width_of(e) <= usize::MAX && height_of(e) <= usize::MAX
}

/// The control sequence that turns bold styling on.
pub open spec fn bold_on() -> Seq<char> {
    seq!['\x1b', '[', '1', 'm']
}

/// The control sequence that resets styling.
pub open spec fn bold_off() -> Seq<char> {
    seq!['\x1b', '[', '0', 'm']
}

/// `n` copies of `c`.
pub open spec fn repeat(c: char, n: nat) -> Seq<char> {
    Seq::new(n, |_i: int| c)
}

/// A horizontal border of a box `width` columns wide, with its newline.
pub open spec fn border_line(width: nat) -> Seq<char> {
    seq!['+'] + repeat('-', (width - 2) as nat) + seq!['+', '\n']
}

/// What rendering `e` writes.
pub open spec fn rendered(e: Element) -> Seq<char>
    decreases e,
{
    match e {
        Element::Text(t) => t.text@,
        Element::Heading(h) => bold_on() + h.text@ + bold_off(),
        Element::Container(c) => rendered_container(c),
    }
}

/// A container's top border, one row per child, and its bottom border.
pub open spec fn rendered_container(c: Container) -> Seq<char>
    decreases c,
{
    let w = max_width_of(c.children@) + 2;
    border_line(w) + rendered_rows(c.children@, max_width_of(c.children@)) + border_line(w)
}

/// The rows of `s` inside a box whose interior is `inner` columns wide: each
/// child between two vertical borders, padded on the right with spaces.
pub open spec fn rendered_rows(s: Seq<Element>, inner: nat) -> Seq<char>
    decreases s,
{
    if s.len() == 0 {
        Seq::empty()
    } else {
        rendered_rows(s.drop_last(), inner) + seq!['|'] + rendered(s.last()) + repeat(
            ' ',
            (inner - width_of(s.last())) as nat,
        ) + seq!['|', '\n']
    }
}

/// Taking one more child into account extends the running maximum and sum.
proof fn lemma_prefix_step(s: Seq<Element>, i: int)
    requires
        0 <= i < s.len(),
    ensures
        max_width_of(s.take(i + 1)) == if max_width_of(s.take(i)) >= width_of(s[i]) {
            max_width_of(s.take(i))
        } else {
            width_of(s[i])
        },
        sum_height_of(s.take(i + 1)) == sum_height_of(s.take(i)) + height_of(s[i]),
{
    assert(s.take(i + 1).drop_last() =~= s.take(i));
    assert(s.take(i + 1).last() == s[i]);
}

/// Every element of `s` is no wider than the widest and no taller than all of
/// `s` together; a prefix is bounded by the whole sequence.
proof fn lemma_bounds(s: Seq<Element>)
    ensures
        forall|i: int| 0 <= i < s.len() ==> #[trigger] width_of(s[i]) <= max_width_of(s),
        forall|i: int| 0 <= i < s.len() ==> #[trigger] height_of(s[i]) <= sum_height_of(s),
        forall|i: int| 0 <= i <= s.len() ==> #[trigger] max_width_of(s.take(i)) <= max_width_of(s),
        forall|i: int| 0 <= i <= s.len() ==> #[trigger] sum_height_of(s.take(i)) <= sum_height_of(s),
    decreases s.len(),
{
    if s.len() > 0 {
        let t = s.drop_last();
        lemma_bounds(t);
        assert forall|i: int| 0 <= i < s.len() implies #[trigger] width_of(s[i]) <= max_width_of(s) by {
            if i < t.len() {
                assert(s[i] == t[i]);
            }
        }
        assert forall|i: int| 0 <= i < s.len() implies #[trigger] height_of(s[i]) <= sum_height_of(s) by {
            if i < t.len() {
                assert(s[i] == t[i]);
            }
        }
        assert forall|i: int| 0 <= i <= s.len() implies #[trigger] max_width_of(s.take(i)) <= max_width_of(s) by {
            if i < s.len() {
                assert(s.take(i) =~= t.take(i));
            } else {
                assert(s.take(i) =~= s);
            }
        }
        assert forall|i: int| 0 <= i <= s.len() implies #[trigger] sum_height_of(s.take(i)) <= sum_height_of(s) by {
            if i < s.len() {
                assert(s.take(i) =~= t.take(i));
            } else {
                assert(s.take(i) =~= s);
            }
        }
    }
}

impl Text {
    /// The text's character count by one row.
    pub fn dimensions(&self) -> (r: Dimensions)
        ensures
            r.width == self.text@.len(),
            r.height == 1,
    {
        Dimensions { width: self.text.as_str().unicode_len(), height: 1 }
    }
}

impl Heading {
    /// The text's character count by one row; the styling takes no room.
    pub fn dimensions(&self) -> (r: Dimensions)
        ensures
            r.width == self.text@.len(),
            r.height == 1,
    {
        Dimensions { width: self.text.as_str().unicode_len(), height: 1 }
    }
}

impl Container {
    /// Two border columns plus the widest child, by the sum of the children's
    /// heights.
    pub fn dimensions(&self) -> (r: Dimensions)
        requires
            max_width_of(self.children@) + 2 <= usize::MAX,
            sum_height_of(self.children@) <= usize::MAX,
        ensures
            r.width == max_width_of(self.children@) + 2,
            r.height == sum_height_of(self.children@),
        decreases self,
    {
        let ghost s = self.children@;
        proof {
            lemma_bounds(s);
        }
        let mut max_width: usize = 0;
        let mut sum_height: usize = 0;
        let mut i: usize = 0;
        while i < self.children.len()
            invariant
                s == self.children@,
                0 <= i <= s.len(),
                max_width == max_width_of(s.take(i as int)),
                sum_height == sum_height_of(s.take(i as int)),
                max_width_of(s) + 2 <= usize::MAX,
                sum_height_of(s) <= usize::MAX,
                forall|j: int| 0 <= j < s.len() ==> #[trigger] width_of(s[j]) <= max_width_of(s),
                forall|j: int| 0 <= j < s.len() ==> #[trigger] height_of(s[j]) <= sum_height_of(s),
                forall|j: int| 0 <= j <= s.len() ==> #[trigger] max_width_of(s.take(j)) <= max_width_of(s),
                forall|j: int| 0 <= j <= s.len() ==> #[trigger] sum_height_of(s.take(j)) <= sum_height_of(s),
            decreases s.len() - i,
        {
            let child = &self.children[i];
            assert(width_of(s[i as int]) <= max_width_of(s));
            assert(height_of(s[i as int]) <= sum_height_of(s));
            let dims = child.dimensions();
            proof {
                lemma_prefix_step(s, i as int);
            }
            if dims.width > max_width {
                max_width = dims.width;
            }
            assert(sum_height_of(s.take(i + 1)) <= sum_height_of(s));
            sum_height = sum_height + dims.height;
            i = i + 1;
        }
        assert(s.take(i as int) =~= s);
        Dimensions { width: max_width + 2, height: sum_height }
    }
}

impl Element {
    /// The element's width and height; the same on every call.
    pub fn dimensions(&self) -> (r: Dimensions)
        requires
            fits(*self),
        ensures
            r.width == width_of(*self),
            r.height == height_of(*self),
        decreases self,
    {
        match self {
            Element::Text(t) => t.dimensions(),
            Element::Heading(h) => h.dimensions(),
            Element::Container(c) => c.dimensions(),
        }
    }
}


/// Appends `n` copies of `unit`, a one-character string.
fn push_repeated(out: &mut String, unit: &str, n: usize)
    requires
        unit@.len() == 1,
    ensures
        final(out)@ == old(out)@ + repeat(unit@[0], n as nat),
{
    let ghost start = out@;
    let mut k: usize = 0;
    while k < n
        invariant
            unit@.len() == 1,
            k <= n,
            out@ == start + repeat(unit@[0], k as nat),
        decreases n - k,
    {
        out.append(unit);
        k = k + 1;
        assert(out@ =~= start + repeat(unit@[0], k as nat));
    }
}

/// Appends a horizontal border of a box `width` columns wide.
fn render_line(out: &mut String, width: usize)
    requires
        width >= 2,
    ensures
        final(out)@ == old(out)@ + border_line(width as nat),
{
    let ghost start = out@;
    proof {
        reveal_strlit("+");
        reveal_strlit("-");
        reveal_strlit("+\n");
    }
    out.append("+");
    push_repeated(out, "-", width - 2);
    out.append("+\n");
    assert(out@ =~= start + border_line(width as nat));
}

impl Text {
    /// Writes the text as it is.
    pub fn render(&self, out: &mut String)
        ensures
            final(out)@ == old(out)@ + self.text@,
    {
        out.append(self.text.as_str());
    }
}

impl Heading {
    /// Writes the text between the bold-on and reset control sequences.
    pub fn render(&self, out: &mut String)
        ensures
            final(out)@ == old(out)@ + bold_on() + self.text@ + bold_off(),
    {
        let ghost start = out@;
        proof {
            reveal_strlit("\x1b[1m");
            reveal_strlit("\x1b[0m");
        }
        out.append("\x1b[1m");
        out.append(self.text.as_str());
        out.append("\x1b[0m");
        assert(out@ =~= start + bold_on() + self.text@ + bold_off());
    }
}

impl Container {
    /// Writes the top border, then each child on its own row between vertical
    /// borders and padded to the interior width, then the bottom border.
    pub fn render(&self, out: &mut String)
        requires
            max_width_of(self.children@) + 2 <= usize::MAX,
            sum_height_of(self.children@) <= usize::MAX,
        ensures
            final(out)@ == old(out)@ + rendered_container(*self),
        decreases self,
    {
        let ghost start = out@;
        let ghost s = self.children@;
        let ghost inner = max_width_of(s);
        proof {
            lemma_bounds(s);
        }
        let dims = self.dimensions();
        render_line(out, dims.width);
        let ghost top = out@;
        let mut i: usize = 0;
        while i < self.children.len()
            invariant
                s == self.children@,
                inner == max_width_of(s),
                dims.width == inner + 2,
                inner + 2 <= usize::MAX,
                sum_height_of(s) <= usize::MAX,
                0 <= i <= s.len(),
                top == start + border_line(dims.width as nat),
                out@ == top + rendered_rows(s.take(i as int), inner),
                forall|j: int| 0 <= j < s.len() ==> #[trigger] width_of(s[j]) <= max_width_of(s),
                forall|j: int| 0 <= j < s.len() ==> #[trigger] height_of(s[j]) <= sum_height_of(s),
            decreases s.len() - i,
        {
            proof {
                reveal_strlit("|");
                reveal_strlit(" ");
                reveal_strlit("|\n");
            }
            let child = &self.children[i];
            assert(width_of(s[i as int]) <= inner);
            assert(height_of(s[i as int]) <= sum_height_of(s));
            let child_dims = child.dimensions();
            let ghost before = out@;
            out.append("|");
            child.render(out);
            push_repeated(out, " ", dims.width - 2 - child_dims.width);
            out.append("|\n");
            proof {
                let p = s.take(i + 1);
                assert(p.drop_last() =~= s.take(i as int));
                assert(p.last() == s[i as int]);
                assert(out@ =~= before + seq!['|'] + rendered(s[i as int]) + repeat(
                    ' ',
                    (inner - width_of(s[i as int])) as nat,
                ) + seq!['|', '\n']);
            }
            i = i + 1;
        }
        assert(s.take(i as int) =~= s);
        render_line(out, dims.width);
        assert(out@ =~= start + rendered_container(*self));
    }
}

impl Element {
    /// Writes the element: a leaf's text, or a container's box.
    pub fn render(&self, out: &mut String)
        requires
            fits(*self),
        ensures
            final(out)@ == old(out)@ + rendered(*self),
        decreases self,
    {
        match self {
            Element::Text(t) => t.render(out),
            Element::Heading(h) => h.render(out),
            Element::Container(c) => c.render(out),
        }
    }
}


/// The widest element of a non-empty sequence attains the maximum.
proof fn lemma_max_attained(s: Seq<Element>)
    requires
        s.len() > 0,
    ensures
        exists|i: int| 0 <= i < s.len() && #[trigger] width_of(s[i]) == max_width_of(s),
    decreases s.len(),
{
    let t = s.drop_last();
    if t.len() == 0 {
        assert(width_of(s[0]) == max_width_of(s));
    } else {
        lemma_max_attained(t);
        let j = choose|j: int| 0 <= j < t.len() && #[trigger] width_of(t[j]) == max_width_of(t);
        assert(s[j] == t[j]);
        if max_width_of(s) != max_width_of(t) {
            assert(width_of(s[s.len() - 1]) == max_width_of(s));
        } else {
            assert(width_of(s[j]) == max_width_of(s));
        }
    }
}

/// Measuring is deterministic: any two results of `dimensions` on the same
/// element are equal.
pub proof fn lemma_dimensions_idempotent(e: Element, a: Dimensions, b: Dimensions)
    requires
        a.width == width_of(e) && a.height == height_of(e),
        b.width == width_of(e) && b.height == height_of(e),
    ensures
        a == b,
{
}

/// A container is two columns wider than its widest child, and exactly two
/// columns wide when it has no children.
pub proof fn lemma_container_width(c: Container)
    ensures
        c.children@.len() == 0 ==> width_of(Element::Container(c)) == 2,
        forall|i: int|
            0 <= i < c.children@.len() ==> #[trigger] width_of(c.children@[i]) + 2 <= width_of(
                Element::Container(c),
            ),
        c.children@.len() > 0 ==> exists|i: int|
            0 <= i < c.children@.len() && #[trigger] width_of(c.children@[i]) + 2 == width_of(
                Element::Container(c),
            ),
{
    lemma_bounds(c.children@);
    if c.children@.len() > 0 {
        lemma_max_attained(c.children@);
    }
}

/// A container is exactly as tall as its children together: its border rows
/// are not counted, and a container without children has height 0.
pub proof fn lemma_container_height(c: Container)
    ensures
        height_of(Element::Container(c)) == sum_height_of(c.children@),
        c.children@.len() == 0 ==> height_of(Element::Container(c)) == 0,
        forall|i: int|
            0 <= i < c.children@.len() ==> #[trigger] height_of(c.children@[i]) <= height_of(
                Element::Container(c),
            ),
{
    lemma_bounds(c.children@);
}

/// The padding after each child of a container is never negative: no child
/// is wider than the container's interior.
pub proof fn lemma_padding_nonnegative(c: Container)
    ensures
        forall|i: int|
            0 <= i < c.children@.len() ==> #[trigger] width_of(c.children@[i]) <= width_of(
                Element::Container(c),
            ) - 2,
{
    lemma_bounds(c.children@);
}

/// A rendered container begins and ends with the same border line.
pub proof fn lemma_border_symmetry(c: Container)
    ensures
        ({
            let r = rendered(Element::Container(c));
            let line = border_line(width_of(Element::Container(c)));
            &&& r.len() >= 2 * line.len()
            &&& r.take(line.len() as int) == line
            &&& r.skip(r.len() - line.len()) == line
        }),
{
    let r = rendered(Element::Container(c));
    let line = border_line(width_of(Element::Container(c)));
    let rows = rendered_rows(c.children@, max_width_of(c.children@));
    assert(r == line + rows + line);
    assert(r.take(line.len() as int) =~= line);
    assert(r.skip(r.len() - line.len()) =~= line);
}

/// Widths compose through nesting: a container whose only child is a
/// container is two columns wider than that child.
pub proof fn lemma_nested_width(outer: Container)
    requires
        outer.children@.len() == 1,
        outer.children@[0] is Container,
    ensures
        width_of(Element::Container(outer)) == width_of(outer.children@[0]) + 2,
        width_of(Element::Container(outer)) == max_width_of(
            outer.children@[0]->Container_0.children@,
        ) + 4,
{
    let s = outer.children@;
    assert(max_width_of(s.drop_last()) == 0);
    assert(max_width_of(s) == width_of(s[0]));
}

} // verus!
