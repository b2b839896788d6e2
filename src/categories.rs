//! Unicode general categories and sets of them.
use vstd::prelude::*;
use vstd::string::*;

use crate::error::Error;
use crate::text::same_text;

verus! {

/// A Unicode general category.
#[derive(Debug, Clone, Copy, PartialEq, Eq, Hash, Structural)]
pub enum UnicodeCategory {
    /// Close Punctuation.
    Pe,
    /// Connector Punctuation.
    Pc,
    /// Control.
    Cc,
    /// Currency Symbol.
    Sc,
    /// Dash Punctuation.
    Pd,
    /// Decimal Number.
    Nd,
    /// Enclosing Mark.
    Me,
    /// Final Punctuation.
    Pf,
    /// Format.
    Cf,
    /// Initial Punctuation.
    Pi,
    /// Letter Number.
    Nl,
    /// Line Separator.
    Zl,
    /// Lowercase Letter.
    Ll,
    /// Math Symbol.
    Sm,
    /// Modifier Letter.
    Lm,
    /// Modifier Symbol.
    Sk,
    /// Nonspacing Mark.
    Mn,
    /// Open Punctuation.
    Ps,
    /// Other Letter.
    Lo,
    /// Other Number.
    No,
    /// Other Punctuation.
    Po,
    /// Other Symbol.
    So,
    /// Paragraph Separator.
    Zp,
    /// Private Use.
    Co,
    /// Space Separator.
    Zs,
    /// Spacing Mark.
    Mc,
    /// Surrogate.
    Cs,
    /// Titlecase Letter.
    Lt,
    /// Unassigned.
    Cn,
    /// Uppercase Letter.
    Lu,
}

impl UnicodeCategory {
    /// Close Punctuation (alias).
    pub const CLOSE_PUNCTUATION: UnicodeCategory = UnicodeCategory::Pe;

    /// Connector Punctuation (alias).
    pub const CONNECTOR_PUNCTUATION: UnicodeCategory = UnicodeCategory::Pc;

    /// Control (alias).
    pub const CONTROL: UnicodeCategory = UnicodeCategory::Cc;

    /// Currency Symbol (alias).
    pub const CURRENCY_SYMBOL: UnicodeCategory = UnicodeCategory::Sc;

    /// Dash Punctuation (alias).
    pub const DASH_PUNCTUATION: UnicodeCategory = UnicodeCategory::Pd;

    /// Decimal Number (alias).
    pub const DECIMAL_NUMBER: UnicodeCategory = UnicodeCategory::Nd;

    /// Enclosing Mark (alias).
    pub const ENCLOSING_MARK: UnicodeCategory = UnicodeCategory::Me;

    /// Final Punctuation (alias).
    pub const FINAL_PUNCTUATION: UnicodeCategory = UnicodeCategory::Pf;

    /// Format (alias).
    pub const FORMAT: UnicodeCategory = UnicodeCategory::Cf;

    /// Initial Punctuation (alias).
    pub const INITIAL_PUNCTUATION: UnicodeCategory = UnicodeCategory::Pi;

    /// Letter Number (alias).
    pub const LETTER_NUMBER: UnicodeCategory = UnicodeCategory::Nl;

    /// Line Separator (alias).
    pub const LINE_SEPARATOR: UnicodeCategory = UnicodeCategory::Zl;

    /// Lowercase Letter (alias).
    pub const LOWERCASE_LETTER: UnicodeCategory = UnicodeCategory::Ll;

    /// Math Symbol (alias).
    pub const MATH_SYMBOL: UnicodeCategory = UnicodeCategory::Sm;

    /// Modifier Letter (alias).
    pub const MODIFIER_LETTER: UnicodeCategory = UnicodeCategory::Lm;

    /// Modifier Symbol (alias).
    pub const MODIFIER_SYMBOL: UnicodeCategory = UnicodeCategory::Sk;

    /// Nonspacing Mark (alias).
    pub const NONSPACING_MARK: UnicodeCategory = UnicodeCategory::Mn;

    /// Open Punctuation (alias).
    pub const OPEN_PUNCTUATION: UnicodeCategory = UnicodeCategory::Ps;

    /// Other Letter (alias).
    pub const OTHER_LETTER: UnicodeCategory = UnicodeCategory::Lo;

    /// Other Number (alias).
    pub const OTHER_NUMBER: UnicodeCategory = UnicodeCategory::No;

    /// Other Punctuation (alias).
    pub const OTHER_PUNCTUATION: UnicodeCategory = UnicodeCategory::Po;

    /// Other Symbol (alias).
    pub const OTHER_SYMBOL: UnicodeCategory = UnicodeCategory::So;

    /// Paragraph Separator (alias).
    pub const PARAGRAPH_SEPARATOR: UnicodeCategory = UnicodeCategory::Zp;

    /// Private Use (alias).
    pub const PRIVATE_USE: UnicodeCategory = UnicodeCategory::Co;

    /// Space Separator (alias).
    pub const SPACE_SEPARATOR: UnicodeCategory = UnicodeCategory::Zs;

    /// Spacing Mark (alias).
    pub const SPACING_MARK: UnicodeCategory = UnicodeCategory::Mc;

    /// Surrogate (alias).
    pub const SURROGATE: UnicodeCategory = UnicodeCategory::Cs;

    /// Titlecase Letter (alias).
    pub const TITLECASE_LETTER: UnicodeCategory = UnicodeCategory::Lt;

    /// Unassigned (alias).
    pub const UNASSIGNED: UnicodeCategory = UnicodeCategory::Cn;

    /// Uppercase Letter (alias).
    pub const UPPERCASE_LETTER: UnicodeCategory = UnicodeCategory::Lu;

    /// The position of the category in the enumeration, used as its bit in a set.
    pub open spec fn ordinal(self) -> nat {
        match self {
            UnicodeCategory::Pe => 0,
            UnicodeCategory::Pc => 1,
            UnicodeCategory::Cc => 2,
            UnicodeCategory::Sc => 3,
            UnicodeCategory::Pd => 4,
            UnicodeCategory::Nd => 5,
            UnicodeCategory::Me => 6,
            UnicodeCategory::Pf => 7,
            UnicodeCategory::Cf => 8,
            UnicodeCategory::Pi => 9,
            UnicodeCategory::Nl => 10,
            UnicodeCategory::Zl => 11,
            UnicodeCategory::Ll => 12,
            UnicodeCategory::Sm => 13,
            UnicodeCategory::Lm => 14,
            UnicodeCategory::Sk => 15,
            UnicodeCategory::Mn => 16,
            UnicodeCategory::Ps => 17,
            UnicodeCategory::Lo => 18,
            UnicodeCategory::No => 19,
            UnicodeCategory::Po => 20,
            UnicodeCategory::So => 21,
            UnicodeCategory::Zp => 22,
            UnicodeCategory::Co => 23,
            UnicodeCategory::Zs => 24,
            UnicodeCategory::Mc => 25,
            UnicodeCategory::Cs => 26,
            UnicodeCategory::Lt => 27,
            UnicodeCategory::Cn => 28,
            UnicodeCategory::Lu => 29,
        }
    }

    /// The two-letter abbreviation of the category.
    pub open spec fn abbreviation(self) -> Seq<char> {
        match self {
            UnicodeCategory::Pe => "Pe"@,
            UnicodeCategory::Pc => "Pc"@,
            UnicodeCategory::Cc => "Cc"@,
            UnicodeCategory::Sc => "Sc"@,
            UnicodeCategory::Pd => "Pd"@,
            UnicodeCategory::Nd => "Nd"@,
            UnicodeCategory::Me => "Me"@,
            UnicodeCategory::Pf => "Pf"@,
            UnicodeCategory::Cf => "Cf"@,
            UnicodeCategory::Pi => "Pi"@,
            UnicodeCategory::Nl => "Nl"@,
            UnicodeCategory::Zl => "Zl"@,
            UnicodeCategory::Ll => "Ll"@,
            UnicodeCategory::Sm => "Sm"@,
            UnicodeCategory::Lm => "Lm"@,
            UnicodeCategory::Sk => "Sk"@,
            UnicodeCategory::Mn => "Mn"@,
            UnicodeCategory::Ps => "Ps"@,
            UnicodeCategory::Lo => "Lo"@,
            UnicodeCategory::No => "No"@,
            UnicodeCategory::Po => "Po"@,
            UnicodeCategory::So => "So"@,
            UnicodeCategory::Zp => "Zp"@,
            UnicodeCategory::Co => "Co"@,
            UnicodeCategory::Zs => "Zs"@,
            UnicodeCategory::Mc => "Mc"@,
            UnicodeCategory::Cs => "Cs"@,
            UnicodeCategory::Lt => "Lt"@,
            UnicodeCategory::Cn => "Cn"@,
            UnicodeCategory::Lu => "Lu"@,
        }
    }

    /// The category at position `i` of the enumeration.
    pub open spec fn at(i: nat) -> UnicodeCategory
        recommends
            i < 30,
    {
        if i == 0 {
            UnicodeCategory::Pe
        } else if i == 1 {
            UnicodeCategory::Pc
        } else if i == 2 {
            UnicodeCategory::Cc
        } else if i == 3 {
            UnicodeCategory::Sc
        } else if i == 4 {
            UnicodeCategory::Pd
        } else if i == 5 {
            UnicodeCategory::Nd
        } else if i == 6 {
            UnicodeCategory::Me
        } else if i == 7 {
            UnicodeCategory::Pf
        } else if i == 8 {
            UnicodeCategory::Cf
        } else if i == 9 {
            UnicodeCategory::Pi
        } else if i == 10 {
            UnicodeCategory::Nl
        } else if i == 11 {
            UnicodeCategory::Zl
        } else if i == 12 {
            UnicodeCategory::Ll
        } else if i == 13 {
            UnicodeCategory::Sm
        } else if i == 14 {
            UnicodeCategory::Lm
        } else if i == 15 {
            UnicodeCategory::Sk
        } else if i == 16 {
            UnicodeCategory::Mn
        } else if i == 17 {
            UnicodeCategory::Ps
        } else if i == 18 {
            UnicodeCategory::Lo
        } else if i == 19 {
            UnicodeCategory::No
        } else if i == 20 {
            UnicodeCategory::Po
        } else if i == 21 {
            UnicodeCategory::So
        } else if i == 22 {
            UnicodeCategory::Zp
        } else if i == 23 {
            UnicodeCategory::Co
        } else if i == 24 {
            UnicodeCategory::Zs
        } else if i == 25 {
            UnicodeCategory::Mc
        } else if i == 26 {
            UnicodeCategory::Cs
        } else if i == 27 {
            UnicodeCategory::Lt
        } else if i == 28 {
            UnicodeCategory::Cn
        } else {
            UnicodeCategory::Lu
        }
    }

    /// Abbreviation as a string.
    pub fn as_str(self) -> (r: &'static str)
        ensures
            r@ == self.abbreviation(),
    {
        match self {
            UnicodeCategory::Pe => "Pe",
            UnicodeCategory::Pc => "Pc",
            UnicodeCategory::Cc => "Cc",
            UnicodeCategory::Sc => "Sc",
            UnicodeCategory::Pd => "Pd",
            UnicodeCategory::Nd => "Nd",
            UnicodeCategory::Me => "Me",
            UnicodeCategory::Pf => "Pf",
            UnicodeCategory::Cf => "Cf",
            UnicodeCategory::Pi => "Pi",
            UnicodeCategory::Nl => "Nl",
            UnicodeCategory::Zl => "Zl",
            UnicodeCategory::Ll => "Ll",
            UnicodeCategory::Sm => "Sm",
            UnicodeCategory::Lm => "Lm",
            UnicodeCategory::Sk => "Sk",
            UnicodeCategory::Mn => "Mn",
            UnicodeCategory::Ps => "Ps",
            UnicodeCategory::Lo => "Lo",
            UnicodeCategory::No => "No",
            UnicodeCategory::Po => "Po",
            UnicodeCategory::So => "So",
            UnicodeCategory::Zp => "Zp",
            UnicodeCategory::Co => "Co",
            UnicodeCategory::Zs => "Zs",
            UnicodeCategory::Mc => "Mc",
            UnicodeCategory::Cs => "Cs",
            UnicodeCategory::Lt => "Lt",
            UnicodeCategory::Cn => "Cn",
            UnicodeCategory::Lu => "Lu",
        }
    }

    /// The position of the category in the enumeration.
    pub fn index(self) -> (r: u8)
        ensures
            r as nat == self.ordinal(),
    {
        match self {
            UnicodeCategory::Pe => 0,
            UnicodeCategory::Pc => 1,
            UnicodeCategory::Cc => 2,
            UnicodeCategory::Sc => 3,
            UnicodeCategory::Pd => 4,
            UnicodeCategory::Nd => 5,
            UnicodeCategory::Me => 6,
            UnicodeCategory::Pf => 7,
            UnicodeCategory::Cf => 8,
            UnicodeCategory::Pi => 9,
            UnicodeCategory::Nl => 10,
            UnicodeCategory::Zl => 11,
            UnicodeCategory::Ll => 12,
            UnicodeCategory::Sm => 13,
            UnicodeCategory::Lm => 14,
            UnicodeCategory::Sk => 15,
            UnicodeCategory::Mn => 16,
            UnicodeCategory::Ps => 17,
            UnicodeCategory::Lo => 18,
            UnicodeCategory::No => 19,
            UnicodeCategory::Po => 20,
            UnicodeCategory::So => 21,
            UnicodeCategory::Zp => 22,
            UnicodeCategory::Co => 23,
            UnicodeCategory::Zs => 24,
            UnicodeCategory::Mc => 25,
            UnicodeCategory::Cs => 26,
            UnicodeCategory::Lt => 27,
            UnicodeCategory::Cn => 28,
            UnicodeCategory::Lu => 29,
        }
    }

    /// The category at position `i` of the enumeration.
    pub(crate) fn from_index(i: u8) -> (r: UnicodeCategory)
        requires
            i < 30,
        ensures
            r == UnicodeCategory::at(i as nat),
    {
        match i {
            0 => UnicodeCategory::Pe,
            1 => UnicodeCategory::Pc,
            2 => UnicodeCategory::Cc,
            3 => UnicodeCategory::Sc,
            4 => UnicodeCategory::Pd,
            5 => UnicodeCategory::Nd,
            6 => UnicodeCategory::Me,
            7 => UnicodeCategory::Pf,
            8 => UnicodeCategory::Cf,
            9 => UnicodeCategory::Pi,
            10 => UnicodeCategory::Nl,
            11 => UnicodeCategory::Zl,
            12 => UnicodeCategory::Ll,
            13 => UnicodeCategory::Sm,
            14 => UnicodeCategory::Lm,
            15 => UnicodeCategory::Sk,
            16 => UnicodeCategory::Mn,
            17 => UnicodeCategory::Ps,
            18 => UnicodeCategory::Lo,
            19 => UnicodeCategory::No,
            20 => UnicodeCategory::Po,
            21 => UnicodeCategory::So,
            22 => UnicodeCategory::Zp,
            23 => UnicodeCategory::Co,
            24 => UnicodeCategory::Zs,
            25 => UnicodeCategory::Mc,
            26 => UnicodeCategory::Cs,
            27 => UnicodeCategory::Lt,
            28 => UnicodeCategory::Cn,
            _ => UnicodeCategory::Lu,
        }
    }

    /// The category whose abbreviation is `s`.
    pub fn parse(s: &str) -> (r: Result<UnicodeCategory, Error>)
        ensures
            match r {
                Ok(c) => c.abbreviation() == s@,
                Err(e) => (forall|c: UnicodeCategory| #[trigger] c.abbreviation() != s@) && (
                e matches Error::InvalidCategory(name) && name@ == s@),
            },
    {
        let mut i: u8 = 0;
        while i < 30
            invariant
                i <= 30,
                forall|k: nat| k < i ==> #[trigger] UnicodeCategory::at(k).abbreviation() != s@,
            decreases 30 - i,
        {
            let c = UnicodeCategory::from_index(i);
            if same_text(s, c.as_str()) {
                return Ok(c);
            }
            i = i + 1;
        }
        proof {
            assert forall|c: UnicodeCategory| #[trigger] c.abbreviation() != s@ by {
                lemma_at_ordinal(c);
            }
        }
        Err(Error::InvalidCategory(s.to_owned()))
    }
}

/// Every category sits at its own position of the enumeration.
pub proof fn lemma_at_ordinal(c: UnicodeCategory)
    ensures
        c.ordinal() < 30,
        UnicodeCategory::at(c.ordinal()) == c,
{
}

/// There are 30 categories.
pub proof fn lemma_category_count()
    ensures
        Set::<UnicodeCategory>::full().finite(),
        Set::<UnicodeCategory>::full().len() == 30,
        Set::<UnicodeCategory>::full().remove(UnicodeCategory::Cc).remove(UnicodeCategory::Cs).len() == 28,
{
    let all = Set::<UnicodeCategory>::empty().insert(UnicodeCategory::Pe).insert(UnicodeCategory::Pc).insert(UnicodeCategory::Cc).insert(UnicodeCategory::Sc).insert(UnicodeCategory::Pd).insert(UnicodeCategory::Nd).insert(UnicodeCategory::Me).insert(UnicodeCategory::Pf).insert(UnicodeCategory::Cf).insert(UnicodeCategory::Pi).insert(UnicodeCategory::Nl).insert(UnicodeCategory::Zl).insert(UnicodeCategory::Ll).insert(UnicodeCategory::Sm).insert(UnicodeCategory::Lm).insert(UnicodeCategory::Sk).insert(UnicodeCategory::Mn).insert(UnicodeCategory::Ps).insert(UnicodeCategory::Lo).insert(UnicodeCategory::No).insert(UnicodeCategory::Po).insert(UnicodeCategory::So).insert(UnicodeCategory::Zp).insert(UnicodeCategory::Co).insert(UnicodeCategory::Zs).insert(UnicodeCategory::Mc).insert(UnicodeCategory::Cs).insert(UnicodeCategory::Lt).insert(UnicodeCategory::Cn).insert(UnicodeCategory::Lu);
    assert(all =~= Set::<UnicodeCategory>::full());
}

/// The category at position `i` has ordinal `i`.
pub proof fn lemma_ordinal_at(i: nat)
    requires
        i < 30,
    ensures
        UnicodeCategory::at(i).ordinal() == i,
{
}

/// The mask with the bit of every category set.
pub const ALL_CATEGORIES: u32 = 0x3FFF_FFFF;

/// Whether bit `i` of `v` is set.
pub open spec fn has_bit(v: u32, i: nat) -> bool {
    i < 32 && (v >> (i as u32)) & 1u32 == 1u32
}

proof fn lemma_bit_zero(i: u32) by (bit_vector)
    requires
        i < 32,
    ensures
        (0u32 >> i) & 1u32 != 1u32,
{
}

proof fn lemma_bit_all(i: u32) by (bit_vector)
    requires
        i < 32,
    ensures
        ((0x3FFF_FFFFu32 >> i) & 1u32 == 1u32) == (i < 30),
{
}

proof fn lemma_bit_or(v: u32, w: u32, i: u32) by (bit_vector)
    requires
        i < 32,
    ensures
        (((v | w) >> i) & 1u32 == 1u32) == ((v >> i) & 1u32 == 1u32 || (w >> i) & 1u32 == 1u32),
{
}

proof fn lemma_bit_and(v: u32, w: u32, i: u32) by (bit_vector)
    requires
        i < 32,
    ensures
        (((v & w) >> i) & 1u32 == 1u32) == ((v >> i) & 1u32 == 1u32 && (w >> i) & 1u32 == 1u32),
{
}

proof fn lemma_bit_xor(v: u32, w: u32, i: u32) by (bit_vector)
    requires
        i < 32,
    ensures
        (((v ^ w) >> i) & 1u32 == 1u32) == ((v >> i) & 1u32 == 1u32 != ((w >> i) & 1u32 == 1u32)),
{
}

proof fn lemma_bit_single(i: u32, j: u32) by (bit_vector)
    requires
        i < 32,
        j < 32,
    ensures
        (((1u32 << i) >> j) & 1u32 == 1u32) == (i == j),
{
}

proof fn lemma_bit_test(v: u32, i: u32) by (bit_vector)
    requires
        i < 32,
    ensures
        (v & (1u32 << i) != 0u32) == ((v >> i) & 1u32 == 1u32),
{
}

proof fn lemma_bit_bounds(v: u32, w: u32, i: u32) by (bit_vector)
    requires
        v <= 0x3FFF_FFFFu32,
        w <= 0x3FFF_FFFFu32,
    ensures
        v | w <= 0x3FFF_FFFFu32,
        v & w <= 0x3FFF_FFFFu32,
        0x3FFF_FFFFu32 ^ v <= 0x3FFF_FFFFu32,
        i < 30 ==> v | (1u32 << i) <= 0x3FFF_FFFFu32,
        30 <= i < 32 ==> (v >> i) & 1u32 != 1u32,
{
}

proof fn lemma_bit_shift_on(v: u32, i: u32) by (bit_vector)
    requires
        i < 31,
        v <= 0x3FFF_FFFFu32,
        v >> i != 0u32,
        (v >> i) & 1u32 != 1u32,
    ensures
        v >> (i + 1) as u32 != 0u32,
{
}

/// A nonzero mask of categories has a member at or above `i` once `v >> i` is nonzero.
proof fn lemma_find_bit(v: u32, i: u32)
    requires
        i < 31,
        v <= ALL_CATEGORIES,
        v >> i != 0u32,
    ensures
        exists|j: nat| i <= j < 30 && has_bit(v, j),
    decreases 31 - i,
{
    assert(i < 30) by (bit_vector)
        requires
            v <= 0x3FFF_FFFFu32,
            v >> i != 0u32,
    ;
    if (v >> i) & 1u32 == 1u32 {
        assert(has_bit(v, i as nat));
    } else {
        lemma_bit_shift_on(v, i);
        lemma_find_bit(v, (i + 1) as u32);
    }
}

/// Set of Unicode categories, one bit per category.
#[derive(Debug, Clone, Copy, PartialEq, Eq, Hash, Structural)]
pub struct UnicodeCategorySet(u32);

impl View for UnicodeCategorySet {
    type V = Set<UnicodeCategory>;

    closed spec fn view(&self) -> Set<UnicodeCategory> {
        Set::new(|c: UnicodeCategory| has_bit(self.0, c.ordinal()))
    }
}

/// Every category.
pub open spec fn all_categories() -> Set<UnicodeCategory> {
    Set::full()
}

impl core::str::FromStr for UnicodeCategory {
    type Err = Error;

    fn from_str(s: &str) -> Result<UnicodeCategory, Error> {
        UnicodeCategory::parse(s)
    }
}

impl UnicodeCategorySet {
    #[verifier::type_invariant]
    spec fn well_formed(self) -> bool {
        self.0 <= ALL_CATEGORIES
    }

    /// The members whose ordinal is at least `from`.
    pub open spec fn members_from(self, from: nat) -> Set<UnicodeCategory> {
        self@.filter(|c: UnicodeCategory| c.ordinal() >= from)
    }

    /// Empty set of Unicode categories.
    pub fn new() -> (r: UnicodeCategorySet)
        ensures
            r@ == Set::<UnicodeCategory>::empty(),
    {
        proof {
            assert forall|c: UnicodeCategory| !has_bit(0, #[trigger] c.ordinal()) by {
                lemma_at_ordinal(c);
                lemma_bit_zero(c.ordinal() as u32);
            }
        }
        let r = UnicodeCategorySet(0);
        assert(r@ =~= Set::<UnicodeCategory>::empty());
        r
    }

    /// All Unicode categories.
    pub fn all() -> (r: UnicodeCategorySet)
        ensures
            r@ == all_categories(),
    {
        proof {
            assert forall|c: UnicodeCategory| has_bit(ALL_CATEGORIES, #[trigger] c.ordinal()) by {
                lemma_at_ordinal(c);
                lemma_bit_all(c.ordinal() as u32);
            }
        }
        let r = UnicodeCategorySet(ALL_CATEGORIES);
        assert(r@ =~= all_categories());
        r
    }

    /// Create a category set from raw bits, which must name categories only.
    pub(crate) fn from_value_unchecked(value: u32) -> (r: UnicodeCategorySet)
        requires
            value <= ALL_CATEGORIES,
        ensures
            forall|c: UnicodeCategory| #[trigger] r@.contains(c) == has_bit(value, c.ordinal()),
    {
        UnicodeCategorySet(value)
    }

    /// Add a new Unicode category to the set.
    pub fn add_category(&mut self, category: UnicodeCategory)
        ensures
            final(self)@ == old(self)@.insert(category),
    {
        self.set(category.index());
    }

    /// Whether the set contains `category`.
    pub fn has_category(self, category: UnicodeCategory) -> (r: bool)
        ensures
            r == self@.contains(category),
    {
        self.is_set(category.index())
    }

    /// The size of the set.
    pub fn len(self) -> (r: usize)
        ensures
            r == self@.len(),
            self@.finite(),
    {
        let r = self.count_from(0);
        assert(self.members_from(0) =~= self@);
        r
    }

    /// Whether the set is empty.
    pub fn is_empty(self) -> (r: bool)
        ensures
            r == (self@ == Set::<UnicodeCategory>::empty()),
    {
        proof {
            use_type_invariant(self);
            if self.0 == 0 {
                assert forall|c: UnicodeCategory| !self@.contains(c) by {
                    lemma_at_ordinal(c);
                    lemma_bit_zero(c.ordinal() as u32);
                }
                assert(self@ =~= Set::<UnicodeCategory>::empty());
            } else {
                let v = self.0;
                assert(v >> 0u32 != 0u32) by (bit_vector)
                    requires
                        v != 0u32,
                ;
                lemma_find_bit(v, 0);
                let i = choose|i: nat| i < 30 && has_bit(self.0, i);
                lemma_ordinal_at(i);
                assert(self@.contains(UnicodeCategory::at(i)));
            }
        }
        self.0 == 0
    }

    /// Extract the inner storage value: bit `i` is set when the category of ordinal `i`
    /// is a member.
    pub fn into_value(self) -> (r: u32)
        ensures
            r <= ALL_CATEGORIES,
            forall|c: UnicodeCategory| #[trigger] self@.contains(c) == has_bit(r, c.ordinal()),
    {
        proof {
            use_type_invariant(self);
        }
        self.0
    }

    /// Iterate over included Unicode categories, in ascending ordinal order.
    pub fn iter(self) -> (r: Iter)
        ensures
            r.data() == self,
            r.position() == 0,
    {
        Iter { index: 0, data: self }
    }

    /// The bitwise union of two sets.
    pub closed spec fn spec_union(self, other: UnicodeCategorySet) -> UnicodeCategorySet {
        UnicodeCategorySet(self.0 | other.0)
    }

    /// The bitwise union of two sets holds the members of both.
    pub proof fn lemma_union_view(a: UnicodeCategorySet, b: UnicodeCategorySet)
        ensures
            a.spec_union(b)@ == a@.union(b@),
    {
        assert forall|c: UnicodeCategory| has_bit(a.0 | b.0, #[trigger] c.ordinal()) == (has_bit(
            a.0,
            c.ordinal(),
        ) || has_bit(b.0, c.ordinal())) by {
            lemma_at_ordinal(c);
            lemma_bit_or(a.0, b.0, c.ordinal() as u32);
        }
        assert(a.spec_union(b)@ =~= a@.union(b@));
    }

    /// The union of two sets.
    pub fn union(self, other: UnicodeCategorySet) -> (r: UnicodeCategorySet)
        ensures
            r@ == self@.union(other@),
            r == self.spec_union(other),
    {
        proof {
            use_type_invariant(self);
            use_type_invariant(other);
            lemma_bit_bounds(self.0, other.0, 0);
            UnicodeCategorySet::lemma_union_view(self, other);
        }
        UnicodeCategorySet(self.0 | other.0)
    }

    /// Sets the bit of the category of ordinal `index`.
    pub(crate) fn set(&mut self, index: u8)
        requires
            index < 30,
        ensures
            final(self)@ == old(self)@.insert(UnicodeCategory::at(index as nat)),
    {
        proof {
            use_type_invariant(&*self);
            lemma_bit_bounds(self.0, 0, index as u32);
            assert forall|c: UnicodeCategory| has_bit(self.0 | (1u32 << index), #[trigger] c.ordinal())
                == (has_bit(self.0, c.ordinal()) || c == UnicodeCategory::at(index as nat)) by {
                lemma_at_ordinal(c);
                lemma_ordinal_at(index as nat);
                lemma_bit_or(self.0, 1u32 << index, c.ordinal() as u32);
                lemma_bit_single(index as u32, c.ordinal() as u32);
            }
        }
        let ghost prev = self@;
        self.0 = self.0 | (1u32 << index);
        assert(self@ =~= prev.insert(UnicodeCategory::at(index as nat)));
    }

    /// Whether the category of ordinal `index` is a member.
    fn is_set(self, index: u8) -> (r: bool)
        requires
            index < 30,
        ensures
            r == self@.contains(UnicodeCategory::at(index as nat)),
    {
        proof {
            lemma_ordinal_at(index as nat);
            lemma_bit_test(self.0, index as u32);
        }
        self.0 & (1u32 << index) != 0
    }

    /// The number of members whose ordinal is at least `from`.
    fn count_from(self, from: u8) -> (r: usize)
        ensures
            r == self.members_from(from as nat).len(),
            self.members_from(from as nat).finite(),
    {
        let mut count: usize = 0;
        let mut i: u8 = from;
        let ghost mut seen = Set::<UnicodeCategory>::empty();
        if i > 30 {
            i = 30;
        }
        while i < 30
            invariant
                from <= i <= 30 || (from > 30 && i == 30),
                seen.finite(),
                count == seen.len(),
                count <= i,
                seen == self@.filter(|c: UnicodeCategory| from <= c.ordinal() < i),
            decreases 30 - i,
        {
            if self.is_set(i) {
                proof {
                    lemma_ordinal_at(i as nat);
                    assert(!seen.contains(UnicodeCategory::at(i as nat)));
                    seen = seen.insert(UnicodeCategory::at(i as nat));
                }
                count = count + 1;
            }
            proof {
                assert forall|c: UnicodeCategory| #[trigger] seen.contains(c) == (self@.contains(c)
                    && from <= c.ordinal() < i + 1) by {
                    lemma_at_ordinal(c);
                    lemma_ordinal_at(i as nat);
                }
                assert(seen =~= self@.filter(|c: UnicodeCategory| from <= c.ordinal() < i + 1));
            }
            i = i + 1;
        }
        proof {
            assert forall|c: UnicodeCategory| #[trigger] self@.contains(c) implies c.ordinal() < 30 by {
                lemma_at_ordinal(c);
            }
            assert(seen =~= self.members_from(from as nat));
        }
        count
    }
}

/// Iterator over the members of a category set, in ascending ordinal order.
#[derive(Debug)]
pub struct Iter {
    index: u8,
    data: UnicodeCategorySet,
}

impl Iter {
    #[verifier::type_invariant]
    spec fn well_formed(self) -> bool {
        self.index <= 30
    }

    /// The set being walked.
    pub closed spec fn data(self) -> UnicodeCategorySet {
        self.data
    }

    /// The ordinal from which the walk goes on.
    pub closed spec fn position(self) -> nat {
        self.index as nat
    }

    /// The members not yet returned.
    pub open spec fn remaining(self) -> Set<UnicodeCategory> {
        self.data().members_from(self.position())
    }

    /// The next member, in ascending ordinal order.
    pub fn next(&mut self) -> (r: Option<UnicodeCategory>)
        ensures
            final(self).data() == old(self).data(),
            match r {
                Some(c) => {
                    &&& old(self).remaining().contains(c)
                    &&& forall|d: UnicodeCategory| #[trigger]
                        old(self).remaining().contains(d) ==> c.ordinal() <= d.ordinal()
                    &&& final(self).position() == c.ordinal() + 1
                },
                None => old(self).remaining() == Set::<UnicodeCategory>::empty(),
            },
    {
        proof {
            use_type_invariant(&*self);
        }
        while self.index < 30
            invariant_except_break
                self.data == old(self).data,
                old(self).index <= self.index <= 30,
                forall|d: UnicodeCategory| #[trigger]
                    old(self).remaining().contains(d) ==> self.index <= d.ordinal(),
            ensures
                self.data == old(self).data,
                old(self).index <= self.index,
                self.index >= 30 ==> forall|d: UnicodeCategory| #[trigger]
                    old(self).remaining().contains(d) ==> self.index <= d.ordinal(),
                self.index < 30 ==> self.data@.contains(UnicodeCategory::at(self.index as nat)),
                self.index < 30 ==> forall|d: UnicodeCategory| #[trigger]
                    old(self).remaining().contains(d) ==> self.index <= d.ordinal(),
            decreases 30 - self.index,
        {
            if self.data.is_set(self.index) {
                break;
            }
            proof {
                assert forall|d: UnicodeCategory| #[trigger]
                    old(self).remaining().contains(d) implies self.index + 1 <= d.ordinal() by {
                    lemma_at_ordinal(d);
                    if d.ordinal() == self.index {
                        lemma_ordinal_at(self.index as nat);
                    }
                }
            }
            self.index = self.index + 1;
        }
        if self.index >= 30 {
            proof {
                assert forall|d: UnicodeCategory| !old(self).remaining().contains(d) by {
                    lemma_at_ordinal(d);
                }
                assert(old(self).remaining() =~= Set::<UnicodeCategory>::empty());
            }
            return None;
        }
        let category = UnicodeCategory::from_index(self.index);
        proof {
            lemma_ordinal_at(self.index as nat);
        }
        self.index = self.index + 1;
        Some(category)
    }

    /// The number of members not yet returned.
    pub fn len(&self) -> (r: usize)
        ensures
            r == self.remaining().len(),
    {
        self.data.count_from(self.index)
    }
}

/// The view of an optional category set.
pub open spec fn option_view(s: Option<UnicodeCategorySet>) -> Option<Set<UnicodeCategory>> {
    match s {
        Some(s) => Some(s@),
        None => None,
    }
}

/// The categories a query selects: every category not excluded, restricted to the
/// selected ones when a selection is given; an empty selection selects nothing.
pub open spec fn category_selection(
    selected: Option<Set<UnicodeCategory>>,
    exclude: Set<UnicodeCategory>,
) -> Set<UnicodeCategory> {
    match selected {
        None => all_categories().difference(exclude),
        Some(s) => if s == Set::<UnicodeCategory>::empty() {
            Set::<UnicodeCategory>::empty()
        } else {
            all_categories().difference(exclude).intersect(s)
        },
    }
}

/// Return all Unicode categories that are in `selected`, but not in `exclude`; an empty
/// `selected` selects nothing and a missing one selects every category.
pub fn merge(selected: Option<UnicodeCategorySet>, exclude: UnicodeCategorySet) -> (r:
    UnicodeCategorySet)
    ensures
        r@ == category_selection(option_view(selected), exclude@),
{
    let rest = exclude.complement();
    match selected {
        Some(selected) => {
            if selected.is_empty() {
                selected
            } else {
                rest.intersect(selected)
            }
        },
        None => rest,
    }
}

impl UnicodeCategorySet {
    /// Every category not in the set.
    fn complement(self) -> (r: UnicodeCategorySet)
        ensures
            r@ == all_categories().difference(self@),
    {
        proof {
            use_type_invariant(self);
            lemma_bit_bounds(self.0, 0, 0);
            assert forall|c: UnicodeCategory| has_bit(ALL_CATEGORIES ^ self.0, #[trigger] c.ordinal())
                == !has_bit(self.0, c.ordinal()) by {
                lemma_at_ordinal(c);
                lemma_bit_xor(ALL_CATEGORIES, self.0, c.ordinal() as u32);
                lemma_bit_all(c.ordinal() as u32);
            }
        }
        let r = UnicodeCategorySet::from_value_unchecked(ALL_CATEGORIES ^ self.0);
        assert(r@ =~= all_categories().difference(self@));
        r
    }

    /// The categories in both sets.
    fn intersect(self, other: UnicodeCategorySet) -> (r: UnicodeCategorySet)
        ensures
            r@ == self@.intersect(other@),
    {
        proof {
            use_type_invariant(self);
            use_type_invariant(other);
            lemma_bit_bounds(self.0, other.0, 0);
            assert forall|c: UnicodeCategory| has_bit(self.0 & other.0, #[trigger] c.ordinal()) == (
            has_bit(self.0, c.ordinal()) && has_bit(other.0, c.ordinal())) by {
                lemma_at_ordinal(c);
                lemma_bit_and(self.0, other.0, c.ordinal() as u32);
            }
        }
        let r = UnicodeCategorySet::from_value_unchecked(self.0 & other.0);
        assert(r@ =~= self@.intersect(other@));
        r
    }
}

impl UnicodeCategory {
    /// Letters.
    #[allow(non_snake_case)]
    pub fn L() -> (r: UnicodeCategorySet)
        ensures
            r@ == Set::<UnicodeCategory>::empty().insert(UnicodeCategory::Ll).insert(UnicodeCategory::Lm).insert(UnicodeCategory::Lo).insert(UnicodeCategory::Lt).insert(UnicodeCategory::Lu),
    {
        let r = UnicodeCategorySet::of(UnicodeCategory::Ll).union(UnicodeCategorySet::of(UnicodeCategory::Lm)).union(UnicodeCategorySet::of(UnicodeCategory::Lo)).union(UnicodeCategorySet::of(UnicodeCategory::Lt)).union(UnicodeCategorySet::of(UnicodeCategory::Lu));
        assert(r@ =~= Set::<UnicodeCategory>::empty().insert(UnicodeCategory::Ll).insert(UnicodeCategory::Lm).insert(UnicodeCategory::Lo).insert(UnicodeCategory::Lt).insert(UnicodeCategory::Lu));
        r
    }

    /// Marks.
    #[allow(non_snake_case)]
    pub fn M() -> (r: UnicodeCategorySet)
        ensures
            r@ == Set::<UnicodeCategory>::empty().insert(UnicodeCategory::Mc).insert(UnicodeCategory::Me).insert(UnicodeCategory::Mn),
    {
        let r = UnicodeCategorySet::of(UnicodeCategory::Mc).union(UnicodeCategorySet::of(UnicodeCategory::Me)).union(UnicodeCategorySet::of(UnicodeCategory::Mn));
        assert(r@ =~= Set::<UnicodeCategory>::empty().insert(UnicodeCategory::Mc).insert(UnicodeCategory::Me).insert(UnicodeCategory::Mn));
        r
    }

    /// Numbers.
    #[allow(non_snake_case)]
    pub fn N() -> (r: UnicodeCategorySet)
        ensures
            r@ == Set::<UnicodeCategory>::empty().insert(UnicodeCategory::Nd).insert(UnicodeCategory::Nl).insert(UnicodeCategory::No),
    {
        let r = UnicodeCategorySet::of(UnicodeCategory::Nd).union(UnicodeCategorySet::of(UnicodeCategory::Nl)).union(UnicodeCategorySet::of(UnicodeCategory::No));
        assert(r@ =~= Set::<UnicodeCategory>::empty().insert(UnicodeCategory::Nd).insert(UnicodeCategory::Nl).insert(UnicodeCategory::No));
        r
    }

    /// Punctuation.
    #[allow(non_snake_case)]
    pub fn P() -> (r: UnicodeCategorySet)
        ensures
            r@ == Set::<UnicodeCategory>::empty().insert(UnicodeCategory::Pc).insert(UnicodeCategory::Pd).insert(UnicodeCategory::Pe).insert(UnicodeCategory::Pf).insert(UnicodeCategory::Pi).insert(UnicodeCategory::Po).insert(UnicodeCategory::Ps),
    {
        let r = UnicodeCategorySet::of(UnicodeCategory::Pc).union(UnicodeCategorySet::of(UnicodeCategory::Pd)).union(UnicodeCategorySet::of(UnicodeCategory::Pe)).union(UnicodeCategorySet::of(UnicodeCategory::Pf)).union(UnicodeCategorySet::of(UnicodeCategory::Pi)).union(UnicodeCategorySet::of(UnicodeCategory::Po)).union(UnicodeCategorySet::of(UnicodeCategory::Ps));
        assert(r@ =~= Set::<UnicodeCategory>::empty().insert(UnicodeCategory::Pc).insert(UnicodeCategory::Pd).insert(UnicodeCategory::Pe).insert(UnicodeCategory::Pf).insert(UnicodeCategory::Pi).insert(UnicodeCategory::Po).insert(UnicodeCategory::Ps));
        r
    }

    /// Symbols.
    #[allow(non_snake_case)]
    pub fn S() -> (r: UnicodeCategorySet)
        ensures
            r@ == Set::<UnicodeCategory>::empty().insert(UnicodeCategory::Sc).insert(UnicodeCategory::Sk).insert(UnicodeCategory::Sm).insert(UnicodeCategory::So),
    {
        let r = UnicodeCategorySet::of(UnicodeCategory::Sc).union(UnicodeCategorySet::of(UnicodeCategory::Sk)).union(UnicodeCategorySet::of(UnicodeCategory::Sm)).union(UnicodeCategorySet::of(UnicodeCategory::So));
        assert(r@ =~= Set::<UnicodeCategory>::empty().insert(UnicodeCategory::Sc).insert(UnicodeCategory::Sk).insert(UnicodeCategory::Sm).insert(UnicodeCategory::So));
        r
    }

    /// Separators.
    #[allow(non_snake_case)]
    pub fn Z() -> (r: UnicodeCategorySet)
        ensures
            r@ == Set::<UnicodeCategory>::empty().insert(UnicodeCategory::Zp).insert(UnicodeCategory::Zs).insert(UnicodeCategory::Zl),
    {
        let r = UnicodeCategorySet::of(UnicodeCategory::Zp).union(UnicodeCategorySet::of(UnicodeCategory::Zs)).union(UnicodeCategorySet::of(UnicodeCategory::Zl));
        assert(r@ =~= Set::<UnicodeCategory>::empty().insert(UnicodeCategory::Zp).insert(UnicodeCategory::Zs).insert(UnicodeCategory::Zl));
        r
    }

    /// Control, format, private, unassigned and surrogates.
    #[allow(non_snake_case)]
    pub fn C() -> (r: UnicodeCategorySet)
        ensures
            r@ == Set::<UnicodeCategory>::empty().insert(UnicodeCategory::Cc).insert(UnicodeCategory::Cf).insert(UnicodeCategory::Cn).insert(UnicodeCategory::Co).insert(UnicodeCategory::Cs),
    {
        let r = UnicodeCategorySet::of(UnicodeCategory::Cc).union(UnicodeCategorySet::of(UnicodeCategory::Cf)).union(UnicodeCategorySet::of(UnicodeCategory::Cn)).union(UnicodeCategorySet::of(UnicodeCategory::Co)).union(UnicodeCategorySet::of(UnicodeCategory::Cs));
        assert(r@ =~= Set::<UnicodeCategory>::empty().insert(UnicodeCategory::Cc).insert(UnicodeCategory::Cf).insert(UnicodeCategory::Cn).insert(UnicodeCategory::Co).insert(UnicodeCategory::Cs));
        r
    }
}

impl Default for UnicodeCategorySet {
    fn default() -> (r: UnicodeCategorySet)
        ensures
            r@ == Set::<UnicodeCategory>::empty(),
    {
        UnicodeCategorySet::new()
    }
}

impl UnicodeCategorySet {
    /// The set holding `category` alone.
    pub closed spec fn single(category: UnicodeCategory) -> UnicodeCategorySet {
        UnicodeCategorySet(1u32 << (category.ordinal() as u32))
    }

    /// The mask of one category, viewed as a set, holds that category alone.
    pub proof fn lemma_single(category: UnicodeCategory)
        ensures
            UnicodeCategorySet::single(category)@ == Set::<UnicodeCategory>::empty().insert(category),
    {
        let s = UnicodeCategorySet::single(category);
        lemma_at_ordinal(category);
        assert forall|c: UnicodeCategory| #[trigger] s@.contains(c) == (c == category) by {
            lemma_at_ordinal(c);
            lemma_bit_single(category.ordinal() as u32, c.ordinal() as u32);
            if c.ordinal() == category.ordinal() {
                assert(c == UnicodeCategory::at(c.ordinal()));
            }
        }
        assert(s@ =~= Set::<UnicodeCategory>::empty().insert(category));
    }

    fn of(category: UnicodeCategory) -> (r: UnicodeCategorySet)
        ensures
            r == UnicodeCategorySet::single(category),
            r@ == Set::<UnicodeCategory>::empty().insert(category),
    {
        let i = category.index();
        proof {
            lemma_bit_bounds(0, 0, i as u32);
            assert(0u32 | (1u32 << i) == 1u32 << i) by (bit_vector);
            UnicodeCategorySet::lemma_single(category);
        }
        UnicodeCategorySet(1u32 << i)
    }
}

impl From<UnicodeCategory> for UnicodeCategorySet {
    fn from(category: UnicodeCategory) -> (r: UnicodeCategorySet) {
        UnicodeCategorySet::of(category)
    }
}

impl vstd::std_specs::convert::FromSpecImpl<UnicodeCategory> for UnicodeCategorySet {
    open spec fn obeys_from_spec() -> bool {
        true
    }

    open spec fn from_spec(category: UnicodeCategory) -> UnicodeCategorySet {
        UnicodeCategorySet::single(category)
    }
}

impl From<UnicodeCategory> for Option<UnicodeCategorySet> {
    fn from(category: UnicodeCategory) -> (r: Option<UnicodeCategorySet>) {
        Some(UnicodeCategorySet::of(category))
    }
}

impl vstd::std_specs::convert::FromSpecImpl<UnicodeCategory> for Option<UnicodeCategorySet> {
    open spec fn obeys_from_spec() -> bool {
        true
    }

    open spec fn from_spec(category: UnicodeCategory) -> Option<UnicodeCategorySet> {
        Some(UnicodeCategorySet::single(category))
    }
}

impl vstd::std_specs::ops::BitOrSpecImpl for UnicodeCategory {
    open spec fn obeys_bitor_spec() -> bool {
        true
    }

    open spec fn bitor_req(self, rhs: UnicodeCategory) -> bool {
        true
    }

    open spec fn bitor_spec(self, rhs: UnicodeCategory) -> UnicodeCategorySet {
        UnicodeCategorySet::single(self).spec_union(UnicodeCategorySet::single(rhs))
    }
}

impl core::ops::BitOr for UnicodeCategory {
    type Output = UnicodeCategorySet;

    fn bitor(self, rhs: UnicodeCategory) -> (r: UnicodeCategorySet) {
        UnicodeCategorySet::of(self).union(UnicodeCategorySet::of(rhs))
    }
}

impl vstd::std_specs::ops::BitOrSpecImpl<UnicodeCategorySet> for UnicodeCategory {
    open spec fn obeys_bitor_spec() -> bool {
        true
    }

    open spec fn bitor_req(self, rhs: UnicodeCategorySet) -> bool {
        true
    }

    open spec fn bitor_spec(self, rhs: UnicodeCategorySet) -> UnicodeCategorySet {
        UnicodeCategorySet::single(self).spec_union(rhs)
    }
}

impl core::ops::BitOr<UnicodeCategorySet> for UnicodeCategory {
    type Output = UnicodeCategorySet;

    fn bitor(self, rhs: UnicodeCategorySet) -> (r: UnicodeCategorySet) {
        UnicodeCategorySet::of(self).union(rhs)
    }
}

impl vstd::std_specs::ops::BitOrSpecImpl<UnicodeCategory> for UnicodeCategorySet {
    open spec fn obeys_bitor_spec() -> bool {
        true
    }

    open spec fn bitor_req(self, rhs: UnicodeCategory) -> bool {
        true
    }

    open spec fn bitor_spec(self, rhs: UnicodeCategory) -> UnicodeCategorySet {
        self.spec_union(UnicodeCategorySet::single(rhs))
    }
}

impl core::ops::BitOr<UnicodeCategory> for UnicodeCategorySet {
    type Output = UnicodeCategorySet;

    fn bitor(self, rhs: UnicodeCategory) -> (r: UnicodeCategorySet) {
        self.union(UnicodeCategorySet::of(rhs))
    }
}

impl vstd::std_specs::ops::BitOrSpecImpl for UnicodeCategorySet {
    open spec fn obeys_bitor_spec() -> bool {
        true
    }

    open spec fn bitor_req(self, rhs: UnicodeCategorySet) -> bool {
        true
    }

    open spec fn bitor_spec(self, rhs: UnicodeCategorySet) -> UnicodeCategorySet {
        self.spec_union(rhs)
    }
}

impl core::ops::BitOr for UnicodeCategorySet {
    type Output = UnicodeCategorySet;

    fn bitor(self, rhs: UnicodeCategorySet) -> (r: UnicodeCategorySet) {
        self.union(rhs)
    }
}

impl core::ops::BitOrAssign for UnicodeCategorySet {
    fn bitor_assign(&mut self, rhs: UnicodeCategorySet) {
        *self = self.union(rhs);
    }
}

impl core::ops::BitOrAssign<UnicodeCategory> for UnicodeCategorySet {
    fn bitor_assign(&mut self, rhs: UnicodeCategory) {
        self.add_category(rhs);
    }
}

/// The members of `s` with ordinal below `bound`, in ascending ordinal order.
pub open spec fn members_below(s: Set<UnicodeCategory>, bound: nat) -> Seq<UnicodeCategory>
    decreases bound,
{
    if bound == 0 {
        Seq::empty()
    } else if s.contains(UnicodeCategory::at((bound - 1) as nat)) {
        members_below(s, (bound - 1) as nat).push(UnicodeCategory::at((bound - 1) as nat))
    } else {
        members_below(s, (bound - 1) as nat)
    }
}

/// The abbreviations of `categories`, separated by a comma and a space.
pub open spec fn joined(categories: Seq<UnicodeCategory>) -> Seq<char>
    decreases categories.len(),
{
    if categories.len() == 0 {
        Seq::empty()
    } else if categories.len() == 1 {
        categories[0].abbreviation()
    } else {
        joined(categories.drop_last()) + ", "@ + categories.last().abbreviation()
    }
}

impl UnicodeCategorySet {
    /// Renders the members in ascending ordinal order, by abbreviation, separated by a
    /// comma and a space.
    pub fn to_string(&self) -> (r: String)
        ensures
            r@ == joined(members_below(self@, 30)),
    {
        let mut r = String::new();
        let mut i: u8 = 0;
        let mut first = true;
        while i < 30
            invariant
                i <= 30,
                first == (members_below(self@, i as nat).len() == 0),
                r@ == joined(members_below(self@, i as nat)),
            decreases 30 - i,
        {
            let category = UnicodeCategory::from_index(i);
            if self.is_set(i) {
                let ghost before = members_below(self@, i as nat);
                if !first {
                    r.append(", ");
                }
                r.append(category.as_str());
                first = false;
                proof {
                    let now = members_below(self@, (i + 1) as nat);
                    assert(now == before.push(category));
                    assert(now.drop_last() == before);
                    assert(r@ =~= joined(now));
                }
            }
            i = i + 1;
        }
        r
    }
}

} // verus!
