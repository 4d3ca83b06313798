//! Values of signals with fields: where in the bits of a signal the
//! value of one field stands.

use vstd::prelude::*;
use vstd::string::*;
use crate::text::same_text;
use crate::translation::{decimal, decimal_text};

verus! {

/// The kind of a typed variable.
#[derive(Clone, Copy, Debug, PartialEq, Eq, Structural)]
pub enum TypedKind {
    /// A value without fields.
    Ground,
    /// A value with named fields.
    Struct,
    /// A value with numbered fields.
    Vector,
    /// Anything else.
    Other,
}

/// A variable of a typed trace as far as its value is read: its name,
/// the name of its type, the number of its bits, and its fields in the
/// order in which their bits stand.
#[derive(Debug)]
pub struct TypedVariable {
    pub name: String,
    pub tpe: String,
    pub kind: TypedKind,
    pub width: usize,
    pub fields: Vec<TypedVariable>,
}

/// The field of a variable that a path names: the positions of the
/// fields that lead to it, its bits, and the type of the last field passed.
#[derive(Debug)]
pub struct FieldChoice {
    pub route: Vec<usize>,
    pub raw: String,
    pub tpe: Option<String>,
}

/// Mathematical value of a [`FieldChoice`].
pub struct ChoiceView {
    pub route: Seq<usize>,
    pub raw: Seq<char>,
    pub tpe: Option<Seq<char>>,
}

impl DeepView for FieldChoice {
    type V = ChoiceView;

    open spec fn deep_view(&self) -> ChoiceView {
        ChoiceView { route: self.route@, raw: self.raw@, tpe: self.tpe.deep_view() }
    }
}

/// The first `width` bits of a value and the bits behind them; of a
/// value that is shorter a single `0`, and the value itself.
pub open spec fn take_bits(raw: Seq<char>, width: int) -> (Seq<char>, Seq<char>) {
    if raw.len() < width {
        (seq!['0'], raw)
    } else {
        (raw.subrange(0, width), raw.subrange(width, raw.len() as int))
    }
}

/// The bits that are left of a value behind the first `upto` fields.
pub open spec fn bits_left(fields: Seq<TypedVariable>, raw: Seq<char>, upto: int) -> Seq<char>
    decreases upto,
{
    if upto <= 0 {
        raw
    } else {
        take_bits(bits_left(fields, raw, upto - 1), fields[upto - 1].width as int).1
    }
}

/// The position of the first field at or after `from` that has the name `name`.
pub open spec fn field_at(fields: Seq<TypedVariable>, name: Seq<char>, from: int) -> Option<int>
    decreases fields.len() - from,
{
    if from < 0 || from >= fields.len() {
        None
    } else if fields[from].name@ == name {
        Some(from)
    } else {
        field_at(fields, name, from + 1)
    }
}

/// The field of `variable` that the parts of `path` from part `from` on
/// name, for the bits `raw`. A value without fields is the field itself,
/// whatever is left of the path. A value with fields hands the bits of the
/// first field of the named name on to that field; without such a field,
/// or without a part of the path left, nothing is chosen.
pub open spec fn chosen(
    variable: &TypedVariable,
    raw: Seq<char>,
    path: Seq<Seq<char>>,
    from: int,
    last: Option<Seq<char>>,
) -> Option<ChoiceView>
    decreases variable,
{
    match variable.kind {
        TypedKind::Ground => Some(ChoiceView { route: seq![], raw, tpe: last }),
        TypedKind::Other => None,
        _ => if from < 0 || from >= path.len() {
            None
        } else {
            match field_at(variable.fields@, path[from], 0) {
                Some(i) => if 0 <= i < variable.fields.len() {
                    let field = &variable.fields[i];
                    let bits = take_bits(
                        bits_left(variable.fields@, raw, i),
                        field.width as int,
                    ).0;
                    match chosen(field, bits, path, from + 1, Some(field.tpe@)) {
                        Some(c) => Some(ChoiceView { route: seq![i as usize] + c.route, ..c }),
                        None => None,
                    }
                } else {
                    None
                },
                None => None,
            }
        },
    }
}

/// The choice `c` behind the positions `route`.
pub open spec fn behind(route: Seq<usize>, c: Option<ChoiceView>) -> Option<ChoiceView> {
    match c {
        Some(c) => Some(ChoiceView { route: route + c.route, ..c }),
        None => None,
    }
}

/// Splits the first `width` bits off a value.
pub fn split_bits(raw: &str, width: usize) -> (r: (String, String))
    ensures
        (r.0@, r.1@) == take_bits(raw@, width as int),
{
    let n = raw.unicode_len();
    if n < width {
        proof {
            reveal_strlit("0");
        }
        assert("0"@ =~= seq!['0']);
        ("0".to_owned(), raw.to_owned())
    } else {
        (raw.substring_char(0, width).to_owned(), raw.substring_char(width, n).to_owned())
    }
}

/// Finds the field of a variable that a path names, with its bits.
pub fn select_field(variable: &TypedVariable, raw: &str, path: &Vec<String>) -> (r: Option<
    FieldChoice,
>)
    ensures
        r.deep_view() == chosen(variable, raw@, path.deep_view(), 0, None),
{
    let ghost p = path.deep_view();
    let ghost wanted = chosen(variable, raw@, p, 0, None);
    let mut cur = variable;
    let mut bits = raw.to_owned();
    let mut last: Option<String> = None;
    let mut route: Vec<usize> = Vec::new();
    let mut k: usize = 0;
    assert(behind(route@, chosen(cur, bits@, p, 0, None)) =~= wanted) by {
        let c = chosen(cur, bits@, p, 0, None);
        if c is Some {
            assert(route@ + c->0.route =~= c->0.route);
        }
    }
    loop
        invariant
            p == path.deep_view(),
            k <= path.len(),
            wanted == chosen(variable, raw@, p, 0, None),
            wanted == behind(route@, chosen(cur, bits@, p, k as int, last.deep_view())),
        decreases path.len() - k,
    {
        match cur.kind {
            TypedKind::Ground => {
                assert(route@ + Seq::<usize>::empty() =~= route@);
                return Some(FieldChoice { route, raw: bits, tpe: last });
            },
            TypedKind::Other => {
                return None;
            },
            _ => {},
        }
        if k >= path.len() {
            return None;
        }
        assert(p[k as int] == path[k as int]@);
        let fields = &cur.fields;
        let ghost start = bits@;
        let mut found: Option<usize> = None;
        let mut value = String::new();
        let mut i: usize = 0;
        while i < fields.len()
            invariant_except_break
                found is None,
                bits@ == bits_left(fields@, start, i as int),
            invariant
                i <= fields.len(),
                k < path.len(),
                p == path.deep_view(),
                field_at(fields@, p[k as int], 0) == field_at(fields@, p[k as int], i as int),
            ensures
                match found {
                    Some(at) => at < fields.len() && field_at(fields@, p[k as int], 0) == Some(
                        at as int,
                    ) && value@ == take_bits(
                        bits_left(fields@, start, at as int),
                        fields[at as int].width as int,
                    ).0,
                    None => field_at(fields@, p[k as int], 0) is None,
                },
            decreases fields.len() - i,
        {
            let (first, rest) = split_bits(bits.as_str(), fields[i].width);
            assert(p[k as int] == path[k as int]@);
            if same_text(fields[i].name.as_str(), path[k].as_str()) {
                value = first;
                found = Some(i);
                break ;
            }
            bits = rest;
            i = i + 1;
        }
        match found {
            Some(at) => {
                let ghost before = route@;
                let ghost inner = chosen(
                    &fields[at as int],
                    value@,
                    p,
                    k + 1,
                    Some(fields[at as int].tpe@),
                );
                route.push(at);
                proof {
                    if inner is Some {
                        assert(before + (seq![at] + inner->0.route) =~= route@ + inner->0.route);
                    }
                }
                last = Some(fields[at].tpe.clone());
                cur = &fields[at];
                bits = value;
                k = k + 1;
            },
            None => {
                return None;
            },
        }
    }
}

/// The value of a field as it is kept with a vertex: what the value is
/// written as, behind the type of the field and a blank if the field has a type.
pub open spec fn typed_text(tpe: Option<Seq<char>>, written: Seq<char>) -> Seq<char> {
    match tpe {
        Some(t) => t + " "@ + written,
        None => written,
    }
}

/// Puts the type of a chosen field in front of what its value is written as.
pub fn value_text(choice: &FieldChoice, written: &str) -> (r: String)
    ensures
        r@ == typed_text(choice.tpe.deep_view(), written@),
{
    match &choice.tpe {
        Some(t) => t.clone().concat(" ").concat(written),
        None => written.to_owned(),
    }
}

/// How far a value can be read.
#[derive(Clone, Copy, Debug, PartialEq, Eq, Structural)]
pub enum ValueKind {
    Normal,
    Undef,
    DontCare,
}

/// A value with the values of its fields.
#[derive(Debug)]
pub struct TranslationResult {
    /// The bits of the value.
    pub val: String,
    pub subfields: Vec<SubFieldTranslationResult>,
    pub kind: ValueKind,
}

/// The value of one field under the name of the field.
#[derive(Debug)]
pub struct SubFieldTranslationResult {
    pub name: String,
    pub result: TranslationResult,
}

/// Mathematical value of a [`TranslationResult`].
pub struct ReadingView {
    pub val: Seq<char>,
    pub subfields: Seq<(Seq<char>, ReadingView)>,
    pub kind: ValueKind,
}

/// The mathematical value of a reading.
pub open spec fn reading_view(r: &TranslationResult) -> ReadingView
    decreases r, 0int,
{
    ReadingView {
        val: r.val@,
        subfields: fields_view(&r.subfields, r.subfields.len() as int),
        kind: r.kind,
    }
}

/// The mathematical values of the first `upto` fields of a reading.
pub open spec fn fields_view(subs: &Vec<SubFieldTranslationResult>, upto: int) -> Seq<
    (Seq<char>, ReadingView),
>
    decreases subs, upto,
{
    if upto <= 0 || upto > subs.len() {
        seq![]
    } else {
        fields_view(subs, upto - 1).push(
            (subs[upto - 1].name@, reading_view(&subs[upto - 1].result)),
        )
    }
}

/// The first `upto` bits of a value, each as a field under its position.
pub open spec fn bit_fields(raw: Seq<char>, upto: int) -> Seq<(Seq<char>, ReadingView)>
    decreases upto,
{
    if upto <= 0 {
        seq![]
    } else {
        bit_fields(raw, upto - 1).push(
            (
                decimal((upto - 1) as nat),
                ReadingView { val: seq![raw[upto - 1]], subfields: seq![], kind: ValueKind::Normal },
            ),
        )
    }
}

/// The name under which a field is read: its type, a colon and its name.
pub open spec fn field_name(field: &TypedVariable) -> Seq<char> {
    field.tpe@ + ": "@ + field.name@
}

/// Whether the bits `raw` are enough for the variable: a value without
/// fields needs as many bits as it is wide, and every field what falls to it.
pub open spec fn bits_fit(variable: &TypedVariable, raw: Seq<char>) -> bool
    decreases variable, 0int,
{
    match variable.kind {
        TypedKind::Ground => raw.len() >= variable.width,
        TypedKind::Other => true,
        _ => fields_fit(&variable.fields, raw, variable.fields.len() as int),
    }
}

/// Whether the bits `raw` are enough for the first `upto` fields.
pub open spec fn fields_fit(fields: &Vec<TypedVariable>, raw: Seq<char>, upto: int) -> bool
    decreases fields, upto,
{
    if upto <= 0 || upto > fields.len() {
        true
    } else {
        fields_fit(fields, raw, upto - 1) && bits_fit(
            &fields[upto - 1],
            take_bits(bits_left(fields@, raw, upto - 1), fields[upto - 1].width as int).0,
        )
    }
}

/// What the bits `raw` are read as for the variable. A value without
/// fields has a field for each of its bits, unless it is one bit wide; a
/// value with fields has the reading of each field, for the bits that
/// fall to it; anything else is undefined.
pub open spec fn translated(variable: &TypedVariable, raw: Seq<char>) -> ReadingView
    decreases variable, 0int,
{
    match variable.kind {
        TypedKind::Ground => ReadingView {
            val: raw,
            subfields: if variable.width == 1 {
                seq![]
            } else {
                bit_fields(raw, variable.width as int)
            },
            kind: ValueKind::Normal,
        },
        TypedKind::Other => ReadingView { val: raw, subfields: seq![], kind: ValueKind::Undef },
        _ => ReadingView {
            val: raw,
            subfields: translated_fields(&variable.fields, raw, variable.fields.len() as int),
            kind: ValueKind::Normal,
        },
    }
}

/// The readings of the first `upto` fields.
pub open spec fn translated_fields(fields: &Vec<TypedVariable>, raw: Seq<char>, upto: int) -> Seq<
    (Seq<char>, ReadingView),
>
    decreases fields, upto,
{
    if upto <= 0 || upto > fields.len() {
        seq![]
    } else {
        translated_fields(fields, raw, upto - 1).push(
            (
                field_name(&fields[upto - 1]),
                translated(
                    &fields[upto - 1],
                    take_bits(bits_left(fields@, raw, upto - 1), fields[upto - 1].width as int).0,
                ),
            ),
        )
    }
}

/// Tests whether the bits of a value are enough for a variable.
pub fn fits(variable: &TypedVariable, raw: &str) -> (r: bool)
    ensures
        r == bits_fit(variable, raw@),
    decreases variable,
{
    match variable.kind {
        TypedKind::Ground => raw.unicode_len() >= variable.width,
        TypedKind::Other => true,
        _ => {
            let fields = &variable.fields;
            let mut bits = raw.to_owned();
            let mut i: usize = 0;
            while i < fields.len()
                invariant
                    i <= fields.len(),
                    fields == &variable.fields,
                    variable.kind == TypedKind::Struct || variable.kind == TypedKind::Vector,
                    bits@ == bits_left(fields@, raw@, i as int),
                    fields_fit(fields, raw@, i as int),
                decreases fields.len() - i,
            {
                let (first, rest) = split_bits(bits.as_str(), fields[i].width);
                if !fits(&fields[i], first.as_str()) {
                    proof {
                        assert(!fields_fit(fields, raw@, i + 1));
                        if fields_fit(fields, raw@, fields.len() as int) {
                            lemma_fields_fit(fields, raw@, i + 1, fields.len() as int);
                        }
                    }
                    return false;
                }
                bits = rest;
                i = i + 1;
            }
            true
        },
    }
}

/// Bits that are enough for some fields are enough for the first of them.
pub proof fn lemma_fields_fit(fields: &Vec<TypedVariable>, raw: Seq<char>, few: int, all: int)
    requires
        0 <= few <= all <= fields.len(),
        fields_fit(fields, raw, all),
    ensures
        fields_fit(fields, raw, few),
    decreases all - few,
{
    if few < all {
        lemma_fields_fit(fields, raw, few, all - 1);
    }
}

/// Reads the bits of a value for a variable and all its fields. The
/// bits of every value stand in the reading as they are.
pub fn translate_variable(variable: &TypedVariable, raw: &str) -> (r: TranslationResult)
    requires
        bits_fit(variable, raw@),
    ensures
        reading_view(&r) == translated(variable, raw@),
    decreases variable,
{
    match variable.kind {
        TypedKind::Ground => {
            let mut subfields: Vec<SubFieldTranslationResult> = Vec::new();
            if variable.width != 1 {
                let mut i: usize = 0;
                while i < variable.width
                    invariant
                        i <= variable.width,
                        variable.width <= raw@.len(),
                        subfields.len() == i,
                        fields_view(&subfields, i as int) == bit_fields(raw@, i as int),
                    decreases variable.width - i,
                {
                    let bit = raw.substring_char(i, i + 1).to_owned();
                    assert(bit@ =~= seq![raw@[i as int]]);
                    let none: Vec<SubFieldTranslationResult> = Vec::new();
                    let ghost before = subfields;
                    subfields.push(
                        SubFieldTranslationResult {
                            name: decimal_text(i as u128),
                            result: TranslationResult {
                                val: bit,
                                subfields: none,
                                kind: ValueKind::Normal,
                            },
                        },
                    );
                    proof {
                        lemma_fields_view_prefix(&before, &subfields, i as int);
                        let last = subfields[i as int];
                        assert(last.result.subfields.len() == 0);
                        assert(fields_view(&last.result.subfields, 0) =~= seq![]);
                        assert(reading_view(&last.result) == (ReadingView {
                            val: seq![raw@[i as int]],
                            subfields: seq![],
                            kind: ValueKind::Normal,
                        }));
                        assert(fields_view(&subfields, i + 1) == fields_view(
                            &subfields,
                            i as int,
                        ).push((last.name@, reading_view(&last.result))));
                    }
                    i = i + 1;
                }
            }
            TranslationResult { val: raw.to_owned(), subfields, kind: ValueKind::Normal }
        },
        TypedKind::Other => {
            let r = TranslationResult {
                val: raw.to_owned(),
                subfields: Vec::new(),
                kind: ValueKind::Undef,
            };
            assert(fields_view(&r.subfields, 0) =~= seq![]);
            r
        },
        _ => {
            let fields = &variable.fields;
            let mut subfields: Vec<SubFieldTranslationResult> = Vec::new();
            let mut bits = raw.to_owned();
            let mut i: usize = 0;
            while i < fields.len()
                invariant
                    i <= fields.len(),
                    fields == &variable.fields,
                    fields_fit(fields, raw@, fields.len() as int),
                    bits@ == bits_left(fields@, raw@, i as int),
                    subfields.len() == i,
                    fields_view(&subfields, i as int) == translated_fields(fields, raw@, i as int),
                decreases fields.len() - i,
            {
                proof {
                    lemma_fields_fit(fields, raw@, i + 1, fields.len() as int);
                    reveal_strlit(": ");
                }
                let (first, rest) = split_bits(bits.as_str(), fields[i].width);
                let result = translate_variable(&fields[i], first.as_str());
                let name = fields[i].tpe.clone().concat(": ").concat(fields[i].name.as_str());
                let ghost before = subfields;
                subfields.push(SubFieldTranslationResult { name, result });
                proof {
                    lemma_fields_view_prefix(&before, &subfields, i as int);
                }
                bits = rest;
                i = i + 1;
            }
            TranslationResult { val: raw.to_owned(), subfields, kind: ValueKind::Normal }
        },
    }
}

/// The values of the first fields of a reading stay when a field is added behind them.
proof fn lemma_fields_view_prefix(
    a: &Vec<SubFieldTranslationResult>,
    b: &Vec<SubFieldTranslationResult>,
    upto: int,
)
    requires
        0 <= upto <= a.len() <= b.len(),
        forall|i: int| 0 <= i < a.len() ==> a[i] == b[i],
    ensures
        fields_view(a, upto) == fields_view(b, upto),
    decreases upto,
{
    if upto > 0 {
        lemma_fields_view_prefix(a, b, upto - 1);
    }
}

/// What kind of value a variable holds, with the kinds of its fields.
#[derive(Debug)]
pub enum VariableInfo {
    Compound { subfields: Vec<(String, VariableInfo)> },
    Bits,
    Bool,
    Clock,
    String,
    Real,
}

impl Default for VariableInfo {
    /// A value of unknown kind is a text.
    fn default() -> (r: Self)
        ensures
            r is String,
    {
        VariableInfo::String
    }
}

/// Mathematical value of a [`VariableInfo`].
pub enum InfoView {
    Compound { subfields: Seq<(Seq<char>, InfoView)> },
    Bits,
    Bool,
    Clock,
    String,
    Real,
}

/// The mathematical value of a kind of value.
pub open spec fn info_view(info: &VariableInfo) -> InfoView
    decreases info, 0int,
{
    match info {
        VariableInfo::Compound { subfields } => InfoView::Compound {
            subfields: infos_view(subfields, subfields.len() as int),
        },
        VariableInfo::Bits => InfoView::Bits,
        VariableInfo::Bool => InfoView::Bool,
        VariableInfo::Clock => InfoView::Clock,
        VariableInfo::String => InfoView::String,
        VariableInfo::Real => InfoView::Real,
    }
}

/// The mathematical values of the first `upto` kinds of a list.
pub open spec fn infos_view(subs: &Vec<(String, VariableInfo)>, upto: int) -> Seq<
    (Seq<char>, InfoView),
>
    decreases subs, upto,
{
    if upto <= 0 || upto > subs.len() {
        seq![]
    } else {
        infos_view(subs, upto - 1).push((subs[upto - 1].0@, info_view(&subs[upto - 1].1)))
    }
}

/// The first `upto` bits of a value as truth values, each under its position.
pub open spec fn bit_infos(upto: int) -> Seq<(Seq<char>, InfoView)>
    decreases upto,
{
    if upto <= 0 {
        seq![]
    } else {
        bit_infos(upto - 1).push((decimal((upto - 1) as nat), InfoView::Bool))
    }
}

/// What kind of value a variable holds: a truth value if it has no
/// fields and is one bit wide, a truth value for every bit if it is wider;
/// with fields the kind of every field under its name; else a text.
pub open spec fn info_of(variable: &TypedVariable) -> InfoView
    decreases variable, 0int,
{
    match variable.kind {
        TypedKind::Ground => if variable.width == 1 {
            InfoView::Bool
        } else {
            InfoView::Compound { subfields: bit_infos(variable.width as int) }
        },
        TypedKind::Other => InfoView::String,
        _ => InfoView::Compound {
            subfields: infos_of(&variable.fields, variable.fields.len() as int),
        },
    }
}

/// The kinds of the first `upto` fields, each under the name of its field.
pub open spec fn infos_of(fields: &Vec<TypedVariable>, upto: int) -> Seq<(Seq<char>, InfoView)>
    decreases fields, upto,
{
    if upto <= 0 || upto > fields.len() {
        seq![]
    } else {
        infos_of(fields, upto - 1).push((field_name(&fields[upto - 1]), info_of(&fields[upto - 1])))
    }
}

proof fn lemma_infos_view_prefix(
    a: &Vec<(String, VariableInfo)>,
    b: &Vec<(String, VariableInfo)>,
    upto: int,
)
    requires
        0 <= upto <= a.len() <= b.len(),
        forall|i: int| 0 <= i < a.len() ==> a[i] == b[i],
    ensures
        infos_view(a, upto) == infos_view(b, upto),
    decreases upto,
{
    if upto > 0 {
        lemma_infos_view_prefix(a, b, upto - 1);
    }
}

/// Says what kind of value a variable holds.
pub fn convert_kind2info(variable: &TypedVariable) -> (r: VariableInfo)
    ensures
        info_view(&r) == info_of(variable),
    decreases variable,
{
    match variable.kind {
        TypedKind::Ground => {
            if variable.width == 1 {
                VariableInfo::Bool
            } else {
                let mut subfields: Vec<(String, VariableInfo)> = Vec::new();
                let mut i: usize = 0;
                while i < variable.width
                    invariant
                        i <= variable.width,
                        subfields.len() == i,
                        infos_view(&subfields, i as int) == bit_infos(i as int),
                    decreases variable.width - i,
                {
                    let ghost before = subfields;
                    subfields.push((decimal_text(i as u128), VariableInfo::Bool));
                    proof {
                        lemma_infos_view_prefix(&before, &subfields, i as int);
                        let last = subfields[i as int];
                        assert(info_view(&last.1) == InfoView::Bool);
                        assert(infos_view(&subfields, i + 1) == infos_view(&subfields, i as int).push(
                            (last.0@, info_view(&last.1)),
                        ));
                    }
                    i = i + 1;
                }
                VariableInfo::Compound { subfields }
            }
        },
        TypedKind::Other => VariableInfo::String,
        _ => {
            let fields = &variable.fields;
            let mut subfields: Vec<(String, VariableInfo)> = Vec::new();
            let mut i: usize = 0;
            while i < fields.len()
                invariant
                    i <= fields.len(),
                    fields == &variable.fields,
                    subfields.len() == i,
                    infos_view(&subfields, i as int) == infos_of(fields, i as int),
                decreases fields.len() - i,
            {
                proof {
                    reveal_strlit(": ");
                }
                let info = convert_kind2info(&fields[i]);
                let name = fields[i].tpe.clone().concat(": ").concat(fields[i].name.as_str());
                let ghost before = subfields;
                subfields.push((name, info));
                proof {
                    lemma_infos_view_prefix(&before, &subfields, i as int);
                }
                i = i + 1;
            }
            VariableInfo::Compound { subfields }
        },
    }
}

} // verus!
