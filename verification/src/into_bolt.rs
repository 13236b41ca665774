//! The logic of the `IntoBoltType` derive.
//!
//! For a struct with named fields the derived conversion builds a map from
//! each field's name to the field's value; for an enum of unit variants it
//! gives the variant's name as a string.  Other types are rejected.

use vstd::prelude::*;

use proc_macro2::TokenStream;
use syn::{parse2, Data, DeriveInput, Fields};

use self::DataShape::{Enum, Struct, Union};
use self::FieldsShape::{Named, Unit, Unnamed};

verus! {

/// The fields of a struct or of an enum variant.
#[derive(Clone, Debug, PartialEq)]
pub enum FieldsShape {
    /// Named fields, in declaration order.
    Named(Vec<String>),
    /// Tuple fields: how many there are.
    Unnamed(usize),
    /// No fields at all.
    Unit,
}

/// One variant of an enum: its name and its fields.
#[derive(Clone, Debug, PartialEq)]
pub struct VariantShape {
    pub name: String,
    pub fields: FieldsShape,
}

/// What kind of type the derive is applied to.
#[derive(Clone, Debug, PartialEq)]
pub enum DataShape {
    Struct(FieldsShape),
    Enum(Vec<VariantShape>),
    Union,
}

/// The type that the derive is applied to: its name and its shape.
#[derive(Clone, Debug, PartialEq)]
pub struct TypeShape {
    pub name: String,
    pub data: DataShape,
}

/// How values of the type are converted.
#[derive(Clone, Debug, PartialEq)]
pub enum IntoBoltPlan {
    /// A map with one entry per field: the keys are the field names, in
    /// declaration order, and each value is the converted field.
    FieldMap(Vec<String>),
    /// A string: the name of the value's variant; the names are those of the
    /// variants, in declaration order.
    VariantNames(Vec<String>),
}

/// Why the derive rejects a type.
#[derive(Clone, Copy, Debug, PartialEq, Eq, Structural)]
pub enum DeriveError {
    /// A struct whose fields are not named ("IntoBoltType does not support
    /// structs with unnamed fields").
    UnnamedFields,
    /// A union ("IntoBoltType does not support this type").
    UnsupportedType,
    /// An enum with a variant that has fields: the conversion matches each
    /// variant as a unit variant, which the compiler rejects for it.
    VariantWithFields,
    /// The input is not a struct, enum or union definition.
    ParseFailed,
}

/// Whether a variant has no fields.
pub open spec fn is_unit_variant(v: VariantShape) -> bool {
    v.fields is Unit
}

/// The names of the variants, in order.
pub open spec fn variant_names(vs: Seq<VariantShape>) -> Seq<Seq<char>> {
    vs.map_values(|v: VariantShape| v.name@)
}

/// The strings of a vector, as character sequences.
pub open spec fn strings_view(ss: Seq<String>) -> Seq<Seq<char>> {
    ss.map_values(|s: String| s@)
}

/// Whether a result is the one the derive gives for the type: the field
/// names for a struct with named fields, the variant names for an enum of
/// unit variants, and the matching error otherwise.
pub open spec fn derive_result(input: TypeShape, res: Result<IntoBoltPlan, DeriveError>) -> bool {
    match input.data {
        DataShape::Struct(FieldsShape::Named(names)) => res matches Ok(IntoBoltPlan::FieldMap(keys))
            && strings_view(keys@) == strings_view(names@),
        DataShape::Struct(_) => res == Err::<IntoBoltPlan, DeriveError>(DeriveError::UnnamedFields),
        DataShape::Enum(vs) => if forall|i: int| 0 <= i < vs@.len() ==> is_unit_variant(#[trigger] vs@[i]) {
            res matches Ok(IntoBoltPlan::VariantNames(names)) && strings_view(names@) == variant_names(vs@)
        } else {
            res == Err::<IntoBoltPlan, DeriveError>(DeriveError::VariantWithFields)
        },
        DataShape::Union => res == Err::<IntoBoltPlan, DeriveError>(DeriveError::UnsupportedType),
    }
}

/// Decides how the derived conversion of the given type works, or why the
/// type is rejected.
pub fn derive_into_bolttype(input: &TypeShape) -> (res: Result<IntoBoltPlan, DeriveError>)
    ensures
        derive_result(*input, res),
{
    match &input.data {
        DataShape::Struct(FieldsShape::Named(names)) => {
            let keys = copy_strings(names);
            Ok(IntoBoltPlan::FieldMap(keys))
        },
        DataShape::Struct(_) => Err(DeriveError::UnnamedFields),
        DataShape::Enum(variants) => {
            let mut names: Vec<String> = Vec::new();
            let n = variants.len();
            for k in 0..n
                invariant
                    n == variants@.len(),
                    input.data == DataShape::Enum(*variants),
                    forall|i: int| 0 <= i < k ==> is_unit_variant(#[trigger] variants@[i]),
                    strings_view(names@) == variant_names(variants@.take(k as int)),
            {
                match &variants[k].fields {
                    FieldsShape::Unit => {},
                    _ => {
                        assert(!is_unit_variant(variants@[k as int]));
                        assert(!(forall|i: int| 0 <= i < variants@.len() ==> is_unit_variant(#[trigger] variants@[i])));
                        assert(input.data matches DataShape::Enum(vs) && vs@ == variants@);
                        return Err(DeriveError::VariantWithFields);
                    },
                }
                let ghost before = names@;
                let name = variants[k].name.clone();
                assert(name@ == variants@[k as int].name@);
                names.push(name);
                assert(variants@.take(k + 1) =~= variants@.take(k as int).push(variants@[k as int]));
                assert(strings_view(names@) =~= strings_view(before).push(name@));
                assert(variant_names(variants@.take(k + 1)) =~= variant_names(variants@.take(k as int)).push(variants@[k as int].name@));
            }
            assert(variants@.take(n as int) =~= variants@);
            Ok(IntoBoltPlan::VariantNames(names))
        },
        DataShape::Union => Err(DeriveError::UnsupportedType),
    }
}

fn copy_strings(ss: &Vec<String>) -> (copy: Vec<String>)
    ensures
        strings_view(copy@) == strings_view(ss@),
{
    let mut copy: Vec<String> = Vec::new();
    for k in 0..ss.len()
        invariant
            copy@ == ss@.take(k as int),
    {
        copy.push(ss[k].clone());
        assert(copy@ =~= ss@.take(k + 1));
    }
    assert(ss@.take(ss@.len() as int) =~= ss@);
    copy
}

#[verifier::external_type_specification]
#[verifier::external_body]
pub struct ExTokenStream(proc_macro2::TokenStream);

/// What `syn` reads from a derive's tokens: the definition's name and shape,
/// or nothing when the tokens are no struct, enum or union definition.
/// `syn::parse2` works on tokens that are already lexed, so the result
/// depends on the tokens alone.
pub uninterp spec fn parsed_type(input: TokenStream) -> Option<TypeShape>;

/// Calls `syn::parse2::<syn::DeriveInput>` on the derive's tokens and reads
/// the definition into a [`TypeShape`], one arm per kind of data and of
/// fields, moving names and counts only.  The result is [`parsed_type`] of
/// the tokens.
#[verifier::external_body]
fn parse_type_shape(input: TokenStream) -> (shape: Option<TypeShape>)
    ensures
        shape == parsed_type(input),
{
    let d: DeriveInput = parse2(input).ok()?;
    let fields = |f: &Fields| match f {
        Fields::Named(_) => Named(f.iter().map(|f| f.ident.as_ref().unwrap().to_string()).collect()),
        Fields::Unnamed(_) => Unnamed(f.len()),
        Fields::Unit => Unit,
    };
    Some(TypeShape {
        name: d.ident.to_string(),
        data: match &d.data {
            Data::Struct(s) => Struct(fields(&s.fields)),
            Data::Enum(e) => Enum(e.variants.iter().map(|v| VariantShape { name: v.ident.to_string(), fields: fields(&v.fields) }).collect()),
            Data::Union(_) => Union,
        },
    })
}

/// The derive applied to its token input: the input is read as a type
/// definition, whose shape comes back with the result.  When it is none,
/// the derive fails with [`DeriveError::ParseFailed`].
pub fn derive_from_input(input: TokenStream) -> (res: (Result<IntoBoltPlan, DeriveError>, Option<TypeShape>))
    ensures
        res.1 == parsed_type(input),
        res.1 is None ==> res.0 == Err::<IntoBoltPlan, DeriveError>(DeriveError::ParseFailed),
        res.1 matches Some(shape) ==> derive_result(shape, res.0),
{
    match parse_type_shape(input) {
        Some(shape) => {
            let plan = derive_into_bolttype(&shape);
            (plan, Some(shape))
        },
        None => (Err(DeriveError::ParseFailed), None),
    }
}

} // verus!
