//! The order of names.
use crate::order::SortKey;
use vstd::prelude::*;

verus! {

/// The lowercase form of a text, as Unicode defines it.
pub uninterp spec fn lowercase(text: Seq<char>) -> Seq<char>;

/// The lowercase form of `text`.
///
/// `str::to_lowercase` maps a text by the Unicode tables. The claim is only that the result
/// depends on nothing but the text.
#[verifier::external_body]
fn to_lowercase(text: &str) -> (lower: String)
    ensures
        lower@ == lowercase(text@),
{
    text.to_lowercase()
}

/// `a` comes before `b` in the dictionary order of code points.
pub open spec fn text_before(a: Seq<char>, b: Seq<char>) -> bool
    decreases a.len(),
{
    if b.len() == 0 {
        false
    } else if a.len() == 0 {
        true
    } else {
        a[0] < b[0] || (a[0] == b[0] && text_before(a.drop_first(), b.drop_first()))
    }
}

/// No text comes before another that comes before it.
pub proof fn lemma_text_before_asymmetric(a: Seq<char>, b: Seq<char>)
    requires
        text_before(a, b),
    ensures
        !text_before(b, a),
    decreases a.len(),
{
    if a.len() > 0 && b.len() > 0 && a[0] == b[0] {
        lemma_text_before_asymmetric(a.drop_first(), b.drop_first());
    }
}

/// A third text comes after the first of two or before the second.
pub proof fn lemma_text_before_splits(a: Seq<char>, b: Seq<char>, c: Seq<char>)
    requires
        text_before(a, c),
    ensures
        text_before(a, b) || text_before(b, c),
    decreases a.len(),
{
    if a.len() > 0 && b.len() > 0 && c.len() > 0 && a[0] == b[0] && b[0] == c[0] {
        lemma_text_before_splits(a.drop_first(), b.drop_first(), c.drop_first());
    }
}

/// Texts that the order does not tell apart are equal.
pub proof fn lemma_text_before_total(a: Seq<char>, b: Seq<char>)
    requires
        !text_before(a, b),
        !text_before(b, a),
    ensures
        a == b,
    decreases a.len(),
{
    if a.len() > 0 && b.len() > 0 {
        lemma_text_before_total(a.drop_first(), b.drop_first());
        assert(a =~= seq![a[0]] + a.drop_first());
        assert(b =~= seq![b[0]] + b.drop_first());
    } else {
        assert(a =~= b);
    }
}

/// The code points of a text.
fn code_points(text: &str) -> (points: Vec<char>)
    ensures
        points@ == text@,
{
    let mut points: Vec<char> = Vec::new();
    for point in it: text.chars()
        invariant
            points@ == it.seq().take(it.index() as int),
            it.seq() == text@,
    {
        points.push(point);
        assert(points@ =~= it.seq().take(it.index() + 1));
    }
    assert(points@ =~= text@);
    points
}

/// Whether `a` comes before `b` in the dictionary order of code points.
fn is_text_before(a: &Vec<char>, b: &Vec<char>) -> (r: bool)
    ensures
        r == text_before(a@, b@),
{
    let mut i: usize = 0;
    assert(a@.skip(0) =~= a@);
    assert(b@.skip(0) =~= b@);
    while i < a.len() && i < b.len() && a[i] == b[i]
        invariant
            i <= a.len(),
            i <= b.len(),
            text_before(a@, b@) == text_before(a@.skip(i as int), b@.skip(i as int)),
        decreases a.len() - i,
    {
        assert(a@.skip(i as int).drop_first() =~= a@.skip(i + 1));
        assert(b@.skip(i as int).drop_first() =~= b@.skip(i + 1));
        i = i + 1;
    }
    if i == b.len() {
        false
    } else if i == a.len() {
        true
    } else {
        a[i] < b[i]
    }
}

/// A name without regard to case, as a key to sort by.
pub struct FoldedName {
    points: Vec<char>,
}

impl View for FoldedName {
    type V = Seq<char>;

    closed spec fn view(&self) -> Seq<char> {
        self.points@
    }
}

impl FoldedName {
    /// The key of `name`.
    pub fn new(name: &str) -> (key: FoldedName)
        ensures
            key@ == lowercase(name@),
    {
        let lower = to_lowercase(name);
        FoldedName::from_lowercase(lower.as_str())
    }

    /// The key of a name whose lowercase form is `lower`.
    pub fn from_lowercase(lower: &str) -> (key: FoldedName)
        ensures
            key@ == lower@,
    {
        FoldedName { points: code_points(lower) }
    }
}

impl SortKey for FoldedName {
    open spec fn precedes(self, other: FoldedName) -> bool {
        text_before(self@, other@)
    }

    fn is_before(&self, other: &FoldedName) -> (r: bool) {
        is_text_before(&self.points, &other.points)
    }
}

} // verus!
