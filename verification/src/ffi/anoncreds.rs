//! Handle-level operations on claim attribute sets and claim attribute value maps.
//!
//! A handle is an `Option`: `Some` owns a builder or a product, `None` is the null
//! handle. Text arrives the same way, `None` being the null text. Every operation takes
//! its handle by value, so the handle that went into a call is gone when the call
//! returns, whether the call succeeded or not; what the caller holds afterwards is the
//! new handle inside `Ok`, or the error alone. A null handle or a null text is refused
//! with `InvalidArgument` before anything is looked at.

use vstd::prelude::*;
use crate::attributes::{add_attr_outcome, is_canonical_order_of, AttributeSet, AttributeSetBuilder};
use crate::errors::Error;
use crate::values::{add_attr_value_outcome, AttributeValueMap, AttributeValueMapBuilder};

verus! {

/// Creates a claim attributes builder and returns its handle.
///
/// The builder is empty. It is given up by handing it to
/// `indy_crypto_anoncreds_claim_attributes_builder_add_attr` or to
/// `indy_crypto_anoncreds_claim_attributes_builder_finalize`.
pub fn indy_crypto_anoncreds_claim_attributes_builder_new() -> (res: Result<
    AttributeSetBuilder,
    Error,
>)
    ensures
        res matches Ok(builder) && builder@ == Set::<Seq<char>>::empty(),
{
    Ok(AttributeSetBuilder::new())
}

/// Adds the attribute `attr` to the builder behind `claim_attrs_builder` and returns the
/// handle of the new builder. The old handle is consumed in any case.
///
/// A null handle or a null text is refused with `InvalidArgument`, and so is an empty
/// text; a name that the builder holds already is refused with `DuplicateAttribute`.
pub fn indy_crypto_anoncreds_claim_attributes_builder_add_attr(
    claim_attrs_builder: Option<AttributeSetBuilder>,
    attr: Option<&str>,
) -> (res: Result<AttributeSetBuilder, Error>)
    ensures
        (match (claim_attrs_builder, attr) {
            (Some(builder), Some(name)) => match res {
                Ok(grown) => add_attr_outcome(builder@, name@) == Ok::<Set<Seq<char>>, Error>(
                    grown@,
                ),
                Err(e) => add_attr_outcome(builder@, name@) == Err::<Set<Seq<char>>, Error>(e),
            },
            _ => res matches Err(e) && e == Error::InvalidArgument,
        }),
{
    match (claim_attrs_builder, attr) {
        (Some(builder), Some(name)) => builder.add_attr(name),
        _ => Err(Error::InvalidArgument),
    }
}

/// Consumes the builder behind `claim_attrs_builder` and returns the handle of the
/// claim attributes made from it: the names that were added, in ascending order.
///
/// A null handle is refused with `InvalidArgument`. The claim attributes are given up
/// by handing them to `indy_crypto_anoncreds_claim_attributes_free`.
pub fn indy_crypto_anoncreds_claim_attributes_builder_finalize(
    claim_attrs_builder: Option<AttributeSetBuilder>,
) -> (res: Result<AttributeSet, Error>)
    ensures
        (match claim_attrs_builder {
            Some(builder) => res matches Ok(claim_attrs) && is_canonical_order_of(
                claim_attrs@,
                builder@,
            ) && claim_attrs@.len() == builder@.len(),
            None => res matches Err(e) && e == Error::InvalidArgument,
        }),
{
    match claim_attrs_builder {
        Some(builder) => Ok(builder.finalize()),
        None => Err(Error::InvalidArgument),
    }
}

/// Releases the claim attributes behind `claims_attrs`.
///
/// A null handle is refused with `InvalidArgument`; any other is released.
pub fn indy_crypto_anoncreds_claim_attributes_free(claims_attrs: Option<AttributeSet>) -> (res:
    Result<(), Error>)
    ensures
        claims_attrs is Some ==> res == Ok::<(), Error>(()),
        claims_attrs is None ==> res == Err::<(), Error>(Error::InvalidArgument),
{
    match claims_attrs {
        Some(claim_attrs) => {
            claim_attrs.release();
            Ok(())
        },
        None => Err(Error::InvalidArgument),
    }
}

/// Creates a claim attributes values builder and returns its handle.
///
/// The builder is empty. It is given up by handing it to
/// `indy_crypto_anoncreds_claim_attributes_values_builder_add_attr_value` or to
/// `indy_crypto_anoncreds_claim_attributes_values_builder_finalize`.
pub fn indy_crypto_anoncreds_claim_attributes_values_builder_new() -> (res: Result<
    AttributeValueMapBuilder,
    Error,
>)
    ensures
        res matches Ok(builder) && builder@ == Map::<Seq<char>, Seq<char>>::empty()
            && builder.order() == Seq::<Seq<char>>::empty(),
{
    Ok(AttributeValueMapBuilder::new())
}

/// Binds the decimal value `dec_value` to the attribute `attr` in the builder behind
/// `claim_attrs_values_builder` and returns the handle of the new builder. The old
/// handle is consumed in any case.
///
/// A null handle or a null text is refused with `InvalidArgument`, and so is an empty
/// `attr`; then a `dec_value` that is not a non-empty string of decimal digits is
/// refused with `InvalidNumericFormat`; then a name that the builder holds already
/// with `DuplicateAttribute`.
pub fn indy_crypto_anoncreds_claim_attributes_values_builder_add_attr_value(
    claim_attrs_values_builder: Option<AttributeValueMapBuilder>,
    attr: Option<&str>,
    dec_value: Option<&str>,
) -> (res: Result<AttributeValueMapBuilder, Error>)
    ensures
        (match (claim_attrs_values_builder, attr, dec_value) {
            (Some(builder), Some(name), Some(decimal)) => match res {
                Ok(grown) => add_attr_value_outcome(builder@, name@, decimal@) == Ok::<
                    Map<Seq<char>, Seq<char>>,
                    Error,
                >(grown@) && grown.order() == builder.order().push(name@),
                Err(e) => add_attr_value_outcome(builder@, name@, decimal@) == Err::<
                    Map<Seq<char>, Seq<char>>,
                    Error,
                >(e),
            },
            _ => res matches Err(e) && e == Error::InvalidArgument,
        }),
{
    match (claim_attrs_values_builder, attr, dec_value) {
        (Some(builder), Some(name), Some(decimal)) => builder.add_attr_value(name, decimal),
        _ => Err(Error::InvalidArgument),
    }
}

/// Consumes the builder behind `claim_attrs_values_builder` and returns the handle of
/// the claim attributes values made from it: the same values bound to the same names,
/// enumerated in the order in which they were added.
///
/// A null handle is refused with `InvalidArgument`. The claim attributes values are
/// given up by handing them to `indy_crypto_anoncreds_claim_attributes_values_free`.
pub fn indy_crypto_anoncreds_claim_attributes_values_builder_finalize(
    claim_attrs_values_builder: Option<AttributeValueMapBuilder>,
) -> (res: Result<AttributeValueMap, Error>)
    ensures
        (match claim_attrs_values_builder {
            Some(builder) => res matches Ok(claim_attrs_values) && claim_attrs_values@ == builder@
                && claim_attrs_values.order() == builder.order(),
            None => res matches Err(e) && e == Error::InvalidArgument,
        }),
{
    match claim_attrs_values_builder {
        Some(builder) => Ok(builder.finalize()),
        None => Err(Error::InvalidArgument),
    }
}

/// Releases the claim attributes values behind `claims_attrs_values`.
///
/// A null handle is refused with `InvalidArgument`; any other is released.
pub fn indy_crypto_anoncreds_claim_attributes_values_free(
    claims_attrs_values: Option<AttributeValueMap>,
) -> (res: Result<(), Error>)
    ensures
        claims_attrs_values is Some ==> res == Ok::<(), Error>(()),
        claims_attrs_values is None ==> res == Err::<(), Error>(Error::InvalidArgument),
{
    match claims_attrs_values {
        Some(claim_attrs_values) => {
            claim_attrs_values.release();
            Ok(())
        },
        None => Err(Error::InvalidArgument),
    }
}

} // verus!
