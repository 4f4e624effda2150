use vstd::prelude::*;

verus! {

/// Three-valued truth: `True`, `False` or `Unknown`.
#[derive(Debug, Clone, Copy, PartialEq, Eq, Structural)]
pub enum Truth {
    True,
    False,
    Unknown,
}

/// Kleene conjunction.
pub open spec fn and_spec(a: Truth, b: Truth) -> Truth {
    if a == Truth::False || b == Truth::False {
        Truth::False
    } else if a == Truth::Unknown || b == Truth::Unknown {
        Truth::Unknown
    } else {
        Truth::True
    }
}

/// Kleene disjunction.
pub open spec fn or_spec(a: Truth, b: Truth) -> Truth {
    if a == Truth::True || b == Truth::True {
        Truth::True
    } else if a == Truth::Unknown || b == Truth::Unknown {
        Truth::Unknown
    } else {
        Truth::False
    }
}

/// Negation; `Unknown` stays `Unknown`.
pub open spec fn not_spec(a: Truth) -> Truth {
    match a {
        Truth::True => Truth::False,
        Truth::False => Truth::True,
        Truth::Unknown => Truth::Unknown,
    }
}

/// The truth value of a boolean.
pub open spec fn from_bool(b: bool) -> Truth {
    if b {
        Truth::True
    } else {
        Truth::False
    }
}

impl Truth {
    pub fn is_true(self) -> (r: bool)
        ensures
            r == (self == Truth::True),
    {
        matches!(self, Truth::True)
    }

    pub fn is_false(self) -> (r: bool)
        ensures
            r == (self == Truth::False),
    {
        matches!(self, Truth::False)
    }

    pub fn is_unknown(self) -> (r: bool)
        ensures
            r == (self == Truth::Unknown),
    {
        matches!(self, Truth::Unknown)
    }

    pub fn to_bool(self) -> (r: Option<bool>)
        ensures
            self == Truth::True ==> r == Some(true),
            self == Truth::False ==> r == Some(false),
            self == Truth::Unknown ==> r.is_none(),
    {
        match self {
            Truth::True => Some(true),
            Truth::False => Some(false),
            Truth::Unknown => None,
        }
    }

    pub fn or(self, other: Truth) -> (r: Truth)
        ensures
            r == or_spec(self, other),
    {
        match (self, other) {
            (Truth::True, _) | (_, Truth::True) => Truth::True,
            (Truth::Unknown, _) | (_, Truth::Unknown) => Truth::Unknown,
            _ => Truth::False,
        }
    }

    pub fn and(self, other: Truth) -> (r: Truth)
        ensures
            r == and_spec(self, other),
    {
        match (self, other) {
            (Truth::False, _) | (_, Truth::False) => Truth::False,
            (Truth::Unknown, _) | (_, Truth::Unknown) => Truth::Unknown,
            _ => Truth::True,
        }
    }

    pub fn negate(self) -> (r: Truth)
        ensures
            r == not_spec(self),
    {
        match self {
            Truth::True => Truth::False,
            Truth::False => Truth::True,
            Truth::Unknown => Truth::Unknown,
        }
    }

    pub fn from_bool(b: bool) -> (r: Truth)
        ensures
            r == from_bool(b),
    {
        if b {
            Truth::True
        } else {
            Truth::False
        }
    }
}

impl std::ops::Not for Truth {
    type Output = Truth;

    fn not(self) -> (r: Truth)
        ensures
            r == not_spec(self),
    {
        self.negate()
    }
}

impl std::ops::BitAnd for Truth {
    type Output = Truth;

    fn bitand(self, rhs: Truth) -> (r: Truth)
        ensures
            r == and_spec(self, rhs),
    {
        self.and(rhs)
    }
}

impl std::ops::BitOr for Truth {
    type Output = Truth;

    fn bitor(self, rhs: Truth) -> (r: Truth)
        ensures
            r == or_spec(self, rhs),
    {
        self.or(rhs)
    }
}

impl vstd::std_specs::ops::NotSpecImpl for Truth {
    open spec fn obeys_not_spec() -> bool {
        true
    }

    open spec fn not_req(self) -> bool {
        true
    }

    open spec fn not_spec(self) -> Truth {
        not_spec(self)
    }
}

impl vstd::std_specs::ops::BitAndSpecImpl for Truth {
    open spec fn obeys_bitand_spec() -> bool {
        true
    }

    open spec fn bitand_req(self, rhs: Truth) -> bool {
        true
    }

    open spec fn bitand_spec(self, rhs: Truth) -> Truth {
        and_spec(self, rhs)
    }
}

impl vstd::std_specs::ops::BitOrSpecImpl for Truth {
    open spec fn obeys_bitor_spec() -> bool {
        true
    }

    open spec fn bitor_req(self, rhs: Truth) -> bool {
        true
    }

    open spec fn bitor_spec(self, rhs: Truth) -> Truth {
        or_spec(self, rhs)
    }
}

impl From<bool> for Truth {
    fn from(b: bool) -> (r: Truth)
        ensures
            r == from_bool(b),
    {
        Truth::from_bool(b)
    }
}

impl vstd::std_specs::convert::FromSpecImpl<bool> for Truth {
    open spec fn obeys_from_spec() -> bool {
        true
    }

    open spec fn from_spec(b: bool) -> Truth {
        from_bool(b)
    }
}

} // verus!
