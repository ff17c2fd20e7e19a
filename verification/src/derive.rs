//! Names for the variants of an enum: what `#[derive(Discriminant)]` writes.
use vstd::prelude::*;
use crate::text;
use crate::text::{ascii_lower, ascii_lower_char};

verus! {

/// How a variant's name is turned into a discriminant.
#[derive(Clone, Copy, Debug, PartialEq, Eq, Structural)]
pub enum Case {
    /// `not-found`
    Kebab,
    /// `not_found`
    Snake,
    /// `notfound`
    Lower,
    /// `NotFound`, as it stands.
    Title,
}

pub open spec fn ascii_upper(c: char) -> bool {
    'A' <= c <= 'Z'
}

/// Every upper-case ASCII letter in lower case, behind a separator unless it
/// comes first.
pub open spec fn separated(s: Seq<char>, sep: char) -> Seq<char>
    decreases s.len(),
{
    if s.len() == 0 {
        Seq::empty()
    } else {
        let done = separated(s.drop_last(), sep);
        let c = s.last();
        if !ascii_upper(c) {
            done.push(c)
        } else if s.len() == 1 {
            done.push(ascii_lower_char(c))
        } else {
            done.push(sep).push(ascii_lower_char(c))
        }
    }
}

/// A name in a case.
pub open spec fn cased(case: Case, s: Seq<char>) -> Seq<char> {
    match case {
        Case::Kebab => separated(s, '-'),
        Case::Snake => separated(s, '_'),
        Case::Lower => ascii_lower(s),
        Case::Title => s,
    }
}

/// Which case a word asks for.
pub open spec fn case_of(s: Seq<char>) -> Option<Case> {
    if s == "kebab"@ || s == "kebab-case"@ {
        Some(Case::Kebab)
    } else if s == "snake"@ || s == "snake_case"@ {
        Some(Case::Snake)
    } else if s == "lower"@ || s == "lowercase"@ {
        Some(Case::Lower)
    } else if s == "title"@ || s == "Title"@ || s == "TitleCase"@ {
        Some(Case::Title)
    } else {
        None
    }
}

/// Every upper-case ASCII letter in lower case, behind a separator unless it
/// comes first.
fn separate(s: &str, sep: char) -> (r: String)
    ensures
        r@ == separated(s@, sep),
{
    let v = text::chars_of(s);
    let mut out = String::new();
    let mut i: usize = 0;
    proof {
        assert(s@.take(0) =~= Seq::empty());
        assert(out@ =~= separated(s@.take(0), sep));
    }
    while i < v.len()
        invariant
            i <= v@.len(),
            v@ == s@,
            out@ == separated(s@.take(i as int), sep),
        decreases v.len() - i,
    {
        let c = v[i];
        proof {
            assert(s@.take(i + 1).drop_last() =~= s@.take(i as int));
            assert(s@.take(i + 1).last() == c);
        }
        if 'A' <= c && c <= 'Z' {
            if i > 0 {
                out.push(sep);
            }
            out.push(text::lower_char(c));
        } else {
            out.push(c);
        }
        i += 1;
    }
    proof {
        assert(s@.take(s@.len() as int) =~= s@);
    }
    out
}

/// `NotFound` as `not-found`.
pub fn to_kebab(s: &str) -> (r: String)
    ensures
        r@ == separated(s@, '-'),
{
    separate(s, '-')
}

/// `NotFound` as `not_found`.
pub fn to_snake(s: &str) -> (r: String)
    ensures
        r@ == separated(s@, '_'),
{
    separate(s, '_')
}

impl Case {
    /// A name in this case.
    pub fn apply(self, s: &str) -> (r: String)
        ensures
            r@ == cased(self, s@),
    {
        match self {
            Case::Kebab => to_kebab(s),
            Case::Snake => to_snake(s),
            Case::Lower => text::to_ascii_lower(s),
            Case::Title => s.to_owned(),
        }
    }

    /// The case that a word asks for.
    pub fn parse(s: &str) -> (r: Option<Self>)
        ensures
            r == case_of(s@),
    {
        if text::same(s, "kebab") || text::same(s, "kebab-case") {
            Some(Case::Kebab)
        } else if text::same(s, "snake") || text::same(s, "snake_case") {
            Some(Case::Snake)
        } else if text::same(s, "lower") || text::same(s, "lowercase") {
            Some(Case::Lower)
        } else if text::same(s, "title") || text::same(s, "Title") || text::same(s, "TitleCase") {
            Some(Case::Title)
        } else {
            None
        }
    }
}

// ── Attributes ─────────────────────────────────────────────────────

/// A setting in an attribute: `key = "value"`.
#[derive(Debug)]
pub struct Setting {
    pub key: String,
    pub value: String,
}

pub open spec fn settings_view(v: Seq<Setting>) -> Seq<(Seq<char>, Seq<char>)> {
    Seq::new(v.len(), |i: int| (v[i].key@, v[i].value@))
}

/// What an enum asks for.
#[derive(Debug)]
pub struct EnumConfig {
    pub method: String,
    pub case: Case,
}

/// The method's name: the last one set.
pub open spec fn method_of(settings: Seq<(Seq<char>, Seq<char>)>) -> Seq<char>
    decreases settings.len(),
{
    if settings.len() == 0 {
        "discriminant"@
    } else if settings.last().0 == "method"@ {
        settings.last().1
    } else {
        method_of(settings.drop_last())
    }
}

/// The case: the last one set that there is.
pub open spec fn chosen_case(settings: Seq<(Seq<char>, Seq<char>)>) -> Case
    decreases settings.len(),
{
    if settings.len() == 0 {
        Case::Kebab
    } else if settings.last().0 == "case"@ && case_of(settings.last().1) is Some {
        case_of(settings.last().1)->Some_0
    } else {
        chosen_case(settings.drop_last())
    }
}

/// What an enum asks for with the settings of its attributes.
pub fn enum_config(settings: &Vec<Setting>) -> (r: EnumConfig)
    ensures
        r.method@ == method_of(settings_view(settings@)),
        r.case == chosen_case(settings_view(settings@)),
{
    let ghost all = settings_view(settings@);
    let mut method: String = "discriminant".to_owned();
    let mut case = Case::Kebab;
    let mut i: usize = 0;
    proof {
        assert(all.take(0) =~= Seq::empty());
    }
    while i < settings.len()
        invariant
            i <= settings@.len(),
            all == settings_view(settings@),
            method@ == method_of(all.take(i as int)),
            case == chosen_case(all.take(i as int)),
        decreases settings.len() - i,
    {
        let s = &settings[i];
        proof {
            assert(all.take(i + 1).drop_last() =~= all.take(i as int));
            assert(all.take(i + 1).last() == (s.key@, s.value@));
            reveal_strlit("method");
            reveal_strlit("case");
            assert("method"@.len() != "case"@.len());
        }
        if text::same(s.key.as_str(), "method") {
            method = s.value.clone();
        } else if text::same(s.key.as_str(), "case") {
            match Case::parse(s.value.as_str()) {
                Some(c) => {
                    case = c;
                },
                None => {},
            }
        }
        i += 1;
    }
    proof {
        assert(all.take(all.len() as int) =~= all);
    }
    EnumConfig { method, case }
}

/// The name that one attribute gives: the last one set.
pub open spec fn named(settings: Seq<(Seq<char>, Seq<char>)>) -> Option<Seq<char>>
    decreases settings.len(),
{
    if settings.len() == 0 {
        None
    } else if settings.last().0 == "name"@ {
        Some(settings.last().1)
    } else {
        named(settings.drop_last())
    }
}

/// The name that attributes give: that of the first one that gives any.
pub open spec fn first_named(attrs: Seq<Seq<(Seq<char>, Seq<char>)>>) -> Option<Seq<char>>
    decreases attrs.len(),
{
    if attrs.len() == 0 {
        None
    } else if named(attrs[0]) is Some {
        named(attrs[0])
    } else {
        first_named(attrs.drop_first())
    }
}

pub open spec fn attrs_view(v: Seq<Vec<Setting>>) -> Seq<Seq<(Seq<char>, Seq<char>)>> {
    Seq::new(v.len(), |i: int| settings_view(v[i]@))
}

pub open spec fn opt_str(o: Option<&String>) -> Option<Seq<char>> {
    match o {
        Some(s) => Some(s@),
        None => None,
    }
}

fn find_name(settings: &Vec<Setting>) -> (r: Option<&String>)
    ensures
        opt_str(r) == named(settings_view(settings@)),
{
    let ghost all = settings_view(settings@);
    let mut i: usize = settings.len();
    proof {
        assert(all.take(i as int) =~= all);
    }
    while i > 0
        invariant
            i <= settings@.len(),
            all == settings_view(settings@),
            named(all) == named(all.take(i as int)),
        decreases i,
    {
        i -= 1;
        proof {
            assert(all.take(i + 1).drop_last() =~= all.take(i as int));
            assert(all.take(i + 1).last() == (settings@[i as int].key@, settings@[i as int].value@));
        }
        if text::same(settings[i].key.as_str(), "name") {
            return Some(&settings[i].value);
        }
    }
    None
}

/// The name that attributes give a variant, if they give one.
pub fn explicit_name(attrs: &Vec<Vec<Setting>>) -> (r: Option<&String>)
    ensures
        opt_str(r) == first_named(attrs_view(attrs@)),
{
    let ghost all = attrs_view(attrs@);
    let mut i: usize = 0;
    proof {
        assert(all.skip(0) =~= all);
    }
    while i < attrs.len()
        invariant
            i <= attrs@.len(),
            all == attrs_view(attrs@),
            first_named(all) == first_named(all.skip(i as int)),
        decreases attrs.len() - i,
    {
        proof {
            assert(all.skip(i as int)[0] == settings_view(attrs@[i as int]@));
            assert(all.skip(i as int).drop_first() =~= all.skip(i + 1));
        }
        match find_name(&attrs[i]) {
            Some(s) => {
                return Some(s);
            },
            None => {},
        }
        i += 1;
    }
    None
}

// ── Variants ───────────────────────────────────────────────────────

/// What a variant holds.
#[derive(Clone, Copy, Debug, PartialEq, Eq, Structural)]
pub enum Shape {
    Unit,
    Unnamed,
    Named,
}

/// A variant of an enum, with the settings of its attributes.
#[derive(Debug)]
pub struct Variant {
    pub ident: String,
    pub shape: Shape,
    pub attrs: Vec<Vec<Setting>>,
}

/// What a [`Variant`] holds.
#[verifier::ext_equal]
pub struct VariantV {
    pub ident: Seq<char>,
    pub shape: Shape,
    pub attrs: Seq<Seq<(Seq<char>, Seq<char>)>>,
}

impl View for Variant {
    type V = VariantV;

    open spec fn view(&self) -> VariantV {
        VariantV { ident: self.ident@, shape: self.shape, attrs: attrs_view(self.attrs@) }
    }
}

pub open spec fn variants_view(v: Seq<Variant>) -> Seq<VariantV> {
    Seq::new(v.len(), |i: int| v[i]@)
}

/// The pattern that a variant is told by.
pub open spec fn pattern(v: VariantV) -> Seq<char> {
    "Self::"@ + v.ident + match v.shape {
        Shape::Unit => ""@,
        Shape::Unnamed => "(..)"@,
        Shape::Named => " { .. }"@,
    }
}

/// The discriminant of a variant: the name it was given, else its own name in
/// the case of the enum.
pub open spec fn discriminant(v: VariantV, case: Case) -> Seq<char> {
    match first_named(v.attrs) {
        Some(n) => n,
        None => cased(case, v.ident),
    }
}

/// The pattern that a variant is told by.
pub fn variant_pattern(v: &Variant) -> (r: String)
    ensures
        r@ == pattern(v@),
{
    let tail = match v.shape {
        Shape::Unit => "",
        Shape::Unnamed => "(..)",
        Shape::Named => " { .. }",
    };
    text::join3("Self::", v.ident.as_str(), tail)
}

/// The discriminant of a variant.
pub fn variant_name(v: &Variant, case: Case) -> (r: String)
    ensures
        r@ == discriminant(v@, case),
{
    match explicit_name(&v.attrs) {
        Some(n) => n.clone(),
        None => case.apply(v.ident.as_str()),
    }
}

pub open spec fn arms_view(v: Seq<(String, String)>) -> Seq<(Seq<char>, Seq<char>)> {
    Seq::new(v.len(), |i: int| (v[i].0@, v[i].1@))
}

/// The arms: for each variant its pattern and its discriminant.
pub open spec fn arms(vs: Seq<VariantV>, case: Case) -> Seq<(Seq<char>, Seq<char>)> {
    vs.map_values(|v: VariantV| (pattern(v), discriminant(v, case)))
}

/// The arms of the method: for each variant its pattern and its discriminant.
pub fn build_arms(variants: &Vec<Variant>, case: Case) -> (r: Vec<(String, String)>)
    ensures
        arms_view(r@) == arms(variants_view(variants@), case),
{
    let mut out: Vec<(String, String)> = Vec::new();
    let mut i: usize = 0;
    while i < variants.len()
        invariant
            i <= variants@.len(),
            out@.len() == i,
            forall|j: int|
                0 <= j < i ==> (#[trigger] out@[j]).0@ == pattern(variants@[j]@) && out@[j].1@
                    == discriminant(variants@[j]@, case),
        decreases variants.len() - i,
    {
        let p = variant_pattern(&variants[i]);
        let n = variant_name(&variants[i], case);
        out.push((p, n));
        i += 1;
    }
    proof {
        assert(arms_view(out@) =~= arms(variants_view(variants@), case));
    }
    out
}

/// The method that tells the variants of an enum apart.
#[derive(Debug)]
pub struct Expansion {
    pub method: String,
    pub arms: Vec<(String, String)>,
}

/// What a type that is not an enum is told.
pub open spec fn not_an_enum() -> Seq<char> {
    "#[derive(Discriminant)] is only valid on enums"@
}

/// The method for an enum with these settings and variants; nothing for a
/// type that is not an enum.
pub fn derive_discriminant(settings: &Vec<Setting>, variants: Option<&Vec<Variant>>) -> (r: Result<
    Expansion,
    String,
>)
    ensures
        match variants {
            None => r matches Err(e) && e@ == not_an_enum(),
            Some(vs) => r matches Ok(x) && x.method@ == method_of(settings_view(settings@))
                && arms_view(x.arms@) == arms(
                variants_view(vs@),
                chosen_case(settings_view(settings@)),
            ),
        },
{
    match variants {
        None => Err("#[derive(Discriminant)] is only valid on enums".to_owned()),
        Some(vs) => {
            let cfg = enum_config(settings);
            Ok(Expansion { arms: build_arms(vs, cfg.case), method: cfg.method })
        },
    }
}

/// A name in kebab or snake case has no upper-case ASCII letter.
pub proof fn law_separated_is_lower(s: Seq<char>, sep: char)
    requires
        !ascii_upper(sep),
    ensures
        forall|i: int| 0 <= i < separated(s, sep).len() ==> !ascii_upper(#[trigger] separated(s, sep)[i]),
    decreases s.len(),
{
    if s.len() > 0 {
        law_separated_is_lower(s.drop_last(), sep);
        let t = separated(s.drop_last(), sep);
        let r = separated(s, sep);
        let c = s.last();
        assert(ascii_upper(c) ==> !ascii_upper(ascii_lower_char(c)));
        assert forall|i: int| 0 <= i < r.len() implies !ascii_upper(#[trigger] r[i]) by {
            if i < t.len() {
                assert(r[i] == t[i]);
            }
        }
    }
}

/// A name without upper-case letters stays as it is, in every case.
pub proof fn law_lower_names_stay(s: Seq<char>, case: Case)
    requires
        forall|i: int| 0 <= i < s.len() ==> !ascii_upper(#[trigger] s[i]),
    ensures
        cased(case, s) == s,
{
    lemma_separated_stays(s, '-');
    lemma_separated_stays(s, '_');
    assert(ascii_lower(s) =~= s);
}

proof fn lemma_separated_stays(s: Seq<char>, sep: char)
    requires
        forall|i: int| 0 <= i < s.len() ==> !ascii_upper(#[trigger] s[i]),
    ensures
        separated(s, sep) == s,
    decreases s.len(),
{
    if s.len() > 0 {
        let t = s.drop_last();
        assert forall|i: int| 0 <= i < t.len() implies !ascii_upper(#[trigger] t[i]) by {
            assert(t[i] == s[i]);
        }
        lemma_separated_stays(t, sep);
        assert(!ascii_upper(s[s.len() - 1]));
        assert(t.push(s.last()) =~= s);
    } else {
        assert(separated(s, sep) =~= s);
    }
}

/// A name is cut before every capital but the first letter: it is cased word
/// by word, with the separator before a word that begins with a capital.
pub proof fn law_words_are_cased_one_by_one(a: Seq<char>, b: Seq<char>, sep: char)
    requires
        a.len() > 0,
        b.len() > 0,
    ensures
        separated(a + b, sep) == if ascii_upper(b[0]) {
            separated(a, sep) + seq![sep] + separated(b, sep)
        } else {
            separated(a, sep) + separated(b, sep)
        },
    decreases b.len(),
{
    let s = a + b;
    assert(s.last() == b.last());
    assert(s.drop_last() =~= a + b.drop_last());
    if b.len() == 1 {
        assert(s.drop_last() =~= a);
        assert(b.drop_last() =~= Seq::<char>::empty());
        assert(separated(b.drop_last(), sep) =~= Seq::<char>::empty());
        assert(separated(s, sep) =~= if ascii_upper(b[0]) {
            separated(a, sep) + seq![sep] + separated(b, sep)
        } else {
            separated(a, sep) + separated(b, sep)
        });
    } else {
        law_words_are_cased_one_by_one(a, b.drop_last(), sep);
        assert(separated(s, sep) =~= if ascii_upper(b[0]) {
            separated(a, sep) + seq![sep] + separated(b, sep)
        } else {
            separated(a, sep) + separated(b, sep)
        });
    }
}

/// A single letter is put in lower case, without a separator.
pub proof fn law_first_letter_has_no_separator(c: char, sep: char)
    ensures
        separated(seq![c], sep) == seq![ascii_lower_char(c)],
        separated(Seq::<char>::empty(), sep) == Seq::<char>::empty(),
{
    assert(seq![c].drop_last() =~= Seq::<char>::empty());
    assert(separated(seq![c].drop_last(), sep) =~= Seq::<char>::empty());
}

/// Kebab case goes by dashes and snake case by underscores; lower case has no
/// separators, and title case is the name itself.
pub proof fn law_cases(s: Seq<char>)
    ensures
        cased(Case::Kebab, s) == separated(s, '-'),
        cased(Case::Snake, s) == separated(s, '_'),
        cased(Case::Lower, s).len() == s.len(),
        forall|i: int|
            0 <= i < s.len() ==> #[trigger] cased(Case::Lower, s)[i] == ascii_lower_char(s[i]),
        cased(Case::Title, s) == s,
{
}

/// Of the settings with one key the last one counts; where there is none, the
/// method is `discriminant`, the case is kebab, and no name is given.
pub proof fn law_last_setting_counts(settings: Seq<(Seq<char>, Seq<char>)>, i: int)
    ensures
        0 <= i < settings.len() && (forall|j: int|
            i < j < settings.len() ==> (#[trigger] settings[j]).0 != settings[i].0) ==> {
            &&& settings[i].0 == "method"@ ==> method_of(settings) == settings[i].1
            &&& settings[i].0 == "name"@ ==> named(settings) == Some(settings[i].1)
            &&& settings[i].0 == "case"@ && case_of(settings[i].1) is Some ==> chosen_case(settings)
                == case_of(settings[i].1)->Some_0
        },
        (forall|j: int| 0 <= j < settings.len() ==> (#[trigger] settings[j]).0 != "method"@)
            ==> method_of(settings) == "discriminant"@,
        (forall|j: int| 0 <= j < settings.len() ==> (#[trigger] settings[j]).0 != "name"@)
            ==> named(settings) is None,
        (forall|j: int|
            0 <= j < settings.len() ==> (#[trigger] settings[j]).0 != "case"@ || case_of(
                settings[j].1,
            ) is None) ==> chosen_case(settings) == Case::Kebab,
    decreases settings.len(),
{
    if settings.len() > 0 {
        let n = settings.len() - 1;
        let front = settings.drop_last();
        law_last_setting_counts(front, i);
        assert(settings.last() == settings[n]);
        assert forall|j: int| 0 <= j < front.len() implies #[trigger] front[j] == settings[j] by {}
        if 0 <= i < n && (forall|j: int|
            i < j < settings.len() ==> (#[trigger] settings[j]).0 != settings[i].0) {
            assert(settings[n].0 != settings[i].0);
            assert forall|j: int| i < j < front.len() implies (#[trigger] front[j]).0
                != front[i].0 by {
                assert(settings[j].0 != settings[i].0);
            }
        }
        if forall|j: int| 0 <= j < settings.len() ==> (#[trigger] settings[j]).0 != "method"@ {
            assert(settings[n].0 != "method"@);
            assert forall|j: int| 0 <= j < front.len() implies (#[trigger] front[j]).0
                != "method"@ by {
                assert(settings[j].0 != "method"@);
            }
        }
        if forall|j: int| 0 <= j < settings.len() ==> (#[trigger] settings[j]).0 != "name"@ {
            assert(settings[n].0 != "name"@);
            assert forall|j: int| 0 <= j < front.len() implies (#[trigger] front[j]).0
                != "name"@ by {
                assert(settings[j].0 != "name"@);
            }
        }
        if forall|j: int|
            0 <= j < settings.len() ==> (#[trigger] settings[j]).0 != "case"@ || case_of(
                settings[j].1,
            ) is None {
            assert(settings[n].0 != "case"@ || case_of(settings[n].1) is None);
            assert forall|j: int| 0 <= j < front.len() implies (#[trigger] front[j]).0 != "case"@
                || case_of(front[j].1) is None by {
                assert(settings[j].0 != "case"@ || case_of(settings[j].1) is None);
            }
        }
    }
}

proof fn lemma_first_named(attrs: Seq<Seq<(Seq<char>, Seq<char>)>>, i: int)
    requires
        0 <= i < attrs.len(),
        named(attrs[i]) is Some,
        forall|j: int| 0 <= j < i ==> named(#[trigger] attrs[j]) is None,
    ensures
        first_named(attrs) == named(attrs[i]),
    decreases attrs.len(),
{
    if i > 0 {
        assert(named(attrs[0]) is None);
        let t = attrs.drop_first();
        assert forall|j: int| 0 <= j < i - 1 implies named(#[trigger] t[j]) is None by {
            assert(t[j] == attrs[j + 1]);
        }
        lemma_first_named(t, i - 1);
    }
}

proof fn lemma_none_named(attrs: Seq<Seq<(Seq<char>, Seq<char>)>>)
    requires
        forall|j: int| 0 <= j < attrs.len() ==> named(#[trigger] attrs[j]) is None,
    ensures
        first_named(attrs) is None,
    decreases attrs.len(),
{
    if attrs.len() > 0 {
        assert(named(attrs[0]) is None);
        let t = attrs.drop_first();
        assert forall|j: int| 0 <= j < t.len() implies named(#[trigger] t[j]) is None by {
            assert(t[j] == attrs[j + 1]);
        }
        lemma_none_named(t);
    }
}

/// A variant is called by the name that its first naming attribute gives it,
/// and by its identifier in the chosen case where none does.
pub proof fn law_given_names_come_first(v: VariantV, case: Case, i: int)
    ensures
        0 <= i < v.attrs.len() && named(v.attrs[i]) is Some && (forall|j: int|
            0 <= j < i ==> named(#[trigger] v.attrs[j]) is None) ==> discriminant(v, case) == named(
            v.attrs[i],
        )->Some_0,
        (forall|j: int| 0 <= j < v.attrs.len() ==> named(#[trigger] v.attrs[j]) is None)
            ==> discriminant(v, case) == cased(case, v.ident),
{
    if 0 <= i < v.attrs.len() && named(v.attrs[i]) is Some && (forall|j: int|
        0 <= j < i ==> named(#[trigger] v.attrs[j]) is None) {
        lemma_first_named(v.attrs, i);
    }
    if forall|j: int| 0 <= j < v.attrs.len() ==> named(#[trigger] v.attrs[j]) is None {
        lemma_none_named(v.attrs);
    }
}

/// There is one arm for each variant, in their order.
pub proof fn law_one_arm_each(vs: Seq<VariantV>, case: Case)
    ensures
        arms(vs, case).len() == vs.len(),
        forall|i: int|
            0 <= i < vs.len() ==> #[trigger] arms(vs, case)[i] == (
                pattern(vs[i]),
                discriminant(vs[i], case),
            ),
{
}

/// The words for each case, and no others.
pub proof fn law_case_words(s: Seq<char>)
    ensures
        case_of(s) == Some(Case::Kebab) <==> s == "kebab"@ || s == "kebab-case"@,
        case_of(s) == Some(Case::Snake) <==> s == "snake"@ || s == "snake_case"@,
        case_of(s) == Some(Case::Lower) <==> s == "lower"@ || s == "lowercase"@,
        case_of(s) == Some(Case::Title) <==> s == "title"@ || s == "Title"@ || s == "TitleCase"@,
{
    reveal_strlit("kebab");
    reveal_strlit("kebab-case");
    reveal_strlit("snake");
    reveal_strlit("snake_case");
    reveal_strlit("lower");
    reveal_strlit("lowercase");
    reveal_strlit("title");
    reveal_strlit("Title");
    reveal_strlit("TitleCase");
    assert("kebab"@[0] == 'k' && "kebab-case"@[0] == 'k' && "snake"@[0] == 's');
    assert("snake_case"@[0] == 's' && "lower"@[0] == 'l' && "lowercase"@[0] == 'l');
    assert("title"@[0] == 't' && "Title"@[0] == 'T' && "TitleCase"@[0] == 'T');
}

/// The pattern of a variant is its name, with dots in the brackets that its
/// fields stand in.
pub proof fn law_patterns(v: VariantV)
    ensures
        v.shape == Shape::Unit ==> pattern(v) == "Self::"@ + v.ident,
        v.shape == Shape::Unnamed ==> pattern(v) == "Self::"@ + v.ident + "(..)"@,
        v.shape == Shape::Named ==> pattern(v) == "Self::"@ + v.ident + " { .. }"@,
{
    reveal_strlit("");
    assert("Self::"@ + v.ident + ""@ =~= "Self::"@ + v.ident);
}

} // verus!
