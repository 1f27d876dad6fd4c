//! The relational operators a constraint can use.
use vstd::prelude::*;

verus! {

/// How a constraint relates a candidate version to its own version.
#[derive(Clone, Copy, Debug, PartialEq, Eq, Structural)]
pub enum Comparator {
    Equal,
    NotEqual,
    LessThan,
    LessThanOrEqual,
    GreaterThan,
    GreaterThanOrEqual,
    Any,
}

impl Comparator {
    /// Whether a candidate that compares as `c` (-1, 0 or 1) against the
    /// constraint's version passes this operator.
    pub open spec fn admits(self, c: int) -> bool {
        match self {
            Comparator::Equal => c == 0,
            Comparator::NotEqual => c != 0,
            Comparator::LessThan => c < 0,
            Comparator::LessThanOrEqual => c <= 0,
            Comparator::GreaterThan => c > 0,
            Comparator::GreaterThanOrEqual => c >= 0,
            Comparator::Any => true,
        }
    }

    /// `>` and `>=`.
    pub open spec fn is_lower_bound(self) -> bool {
        self == Comparator::GreaterThan || self == Comparator::GreaterThanOrEqual
    }

    /// `<` and `<=`.
    pub open spec fn is_upper_bound(self) -> bool {
        self == Comparator::LessThan || self == Comparator::LessThanOrEqual
    }

    /// The operator's text in a specifier; `Equal` has none.
    pub open spec fn symbol(self) -> Seq<char> {
        match self {
            Comparator::Equal => seq![],
            Comparator::NotEqual => seq!['!', '='],
            Comparator::LessThan => seq!['<'],
            Comparator::LessThanOrEqual => seq!['<', '='],
            Comparator::GreaterThan => seq!['>'],
            Comparator::GreaterThanOrEqual => seq!['>', '='],
            Comparator::Any => seq!['*'],
        }
    }

    pub fn is_lower(&self) -> (r: bool)
        ensures
            r == self.is_lower_bound(),
    {
        match self {
            Comparator::GreaterThan | Comparator::GreaterThanOrEqual => true,
            _ => false,
        }
    }

    pub fn is_upper(&self) -> (r: bool)
        ensures
            r == self.is_upper_bound(),
    {
        match self {
            Comparator::LessThan | Comparator::LessThanOrEqual => true,
            _ => false,
        }
    }

    /// Whether a candidate that compares as `o` against the constraint's
    /// version passes this operator.
    pub fn accepts(&self, o: std::cmp::Ordering) -> (r: bool)
        ensures
            r == self.admits(
                match o {
                    std::cmp::Ordering::Less => -1,
                    std::cmp::Ordering::Equal => 0,
                    std::cmp::Ordering::Greater => 1,
                },
            ),
    {
        match (self, o) {
            (Comparator::Any, _) => true,
            (Comparator::Equal, std::cmp::Ordering::Equal) => true,
            (Comparator::NotEqual, std::cmp::Ordering::Less) => true,
            (Comparator::NotEqual, std::cmp::Ordering::Greater) => true,
            (Comparator::LessThan, std::cmp::Ordering::Less) => true,
            (Comparator::LessThanOrEqual, std::cmp::Ordering::Less) => true,
            (Comparator::LessThanOrEqual, std::cmp::Ordering::Equal) => true,
            (Comparator::GreaterThan, std::cmp::Ordering::Greater) => true,
            (Comparator::GreaterThanOrEqual, std::cmp::Ordering::Greater) => true,
            (Comparator::GreaterThanOrEqual, std::cmp::Ordering::Equal) => true,
            _ => false,
        }
    }

    /// Appends the operator's text to `s`.
    pub fn push_symbol(&self, s: &mut String)
        ensures
            final(s)@ == old(s)@ + self.symbol(),
    {
        match self {
            Comparator::Equal => {
                assert(old(s)@ + seq![] =~= old(s)@);
            },
            Comparator::NotEqual => {
                crate::text::push_char(s, '!');
                crate::text::push_char(s, '=');
            },
            Comparator::LessThan => {
                crate::text::push_char(s, '<');
            },
            Comparator::LessThanOrEqual => {
                crate::text::push_char(s, '<');
                crate::text::push_char(s, '=');
            },
            Comparator::GreaterThan => {
                crate::text::push_char(s, '>');
            },
            Comparator::GreaterThanOrEqual => {
                crate::text::push_char(s, '>');
                crate::text::push_char(s, '=');
            },
            Comparator::Any => {
                crate::text::push_char(s, '*');
            },
        }
        assert(final(s)@ =~= old(s)@ + self.symbol());
    }
}

} // verus!
