use indy_crypto::errors::Error;
use indy_crypto::ffi::anoncreds::{
    indy_crypto_anoncreds_claim_attributes_builder_add_attr,
    indy_crypto_anoncreds_claim_attributes_builder_finalize,
    indy_crypto_anoncreds_claim_attributes_builder_new,
    indy_crypto_anoncreds_claim_attributes_free,
    indy_crypto_anoncreds_claim_attributes_values_builder_add_attr_value,
    indy_crypto_anoncreds_claim_attributes_values_builder_finalize,
    indy_crypto_anoncreds_claim_attributes_values_builder_new,
    indy_crypto_anoncreds_claim_attributes_values_free,
};

const SEX_DEC_VALUE: &str = "89057765651800459030103911598694169835931320404459570102253965466045532669865684092518362135930940112502263498496335250135601124519172068317163741086983519494043168252186111551835366571584950296764626458785776311514968350600732183408950813066589742888246925358509482561838243805468775416479523402043160919428168650069477488093758569936116799246881809224343325540306266957664475026390533069487455816053169001876208052109360113102565642529699056163373190930839656498261278601357214695582219007449398650197048218304260447909283768896882743373383452996855450316360259637079070460616248922547314789644935074980711243164129";

const NAME_DEC_VALUE: &str = "58606710922154038918005745652863947546479611221487923871520854046018234465128105585608812090213473225037875788462225679336791123783441657062831589984290779844020407065450830035885267846722229953206567087435754612694085258455822926492275621650532276267042885213400704012011608869094703483233081911010530256094461587809601298503874283124334225428746479707531278882536314925285434699376158578239556590141035593717362562548075653598376080466948478266094753818404986494459240364648986755479857098110402626477624280802323635285059064580583239726433768663879431610261724430965980430886959304486699145098822052003020688956471";

fn strings(names: &[&str]) -> Vec<String> {
    names.iter().map(|name| name.to_string()).collect()
}

#[test]
fn indy_crypto_anoncreds_claim_attributes_builder_new_works() {
    let claim_attrs_builder = indy_crypto_anoncreds_claim_attributes_builder_new();
    assert!(claim_attrs_builder.is_ok());

    let claim_attrs =
        indy_crypto_anoncreds_claim_attributes_builder_finalize(claim_attrs_builder.ok());
    assert!(claim_attrs.is_ok());

    let res = indy_crypto_anoncreds_claim_attributes_free(claim_attrs.ok());
    assert_eq!(res, Ok(()));
}

#[test]
fn indy_crypto_anoncreds_claim_attributes_builder_add_attr_works() {
    let claim_attrs_builder = indy_crypto_anoncreds_claim_attributes_builder_new();
    assert!(claim_attrs_builder.is_ok());

    let claim_attrs_builder = indy_crypto_anoncreds_claim_attributes_builder_add_attr(
        claim_attrs_builder.ok(),
        Some("sex"),
    );
    assert!(claim_attrs_builder.is_ok());

    let claim_attrs_builder = indy_crypto_anoncreds_claim_attributes_builder_add_attr(
        claim_attrs_builder.ok(),
        Some("name"),
    );
    assert!(claim_attrs_builder.is_ok());

    let claim_attrs_builder = indy_crypto_anoncreds_claim_attributes_builder_add_attr(
        claim_attrs_builder.ok(),
        Some("age"),
    );
    assert!(claim_attrs_builder.is_ok());
    let claim_attrs_builder = claim_attrs_builder.unwrap();
    assert_eq!(claim_attrs_builder.len(), 3);
    assert!(claim_attrs_builder.contains("sex"));
    assert!(claim_attrs_builder.contains("name"));
    assert!(claim_attrs_builder.contains("age"));

    let claim_attrs =
        indy_crypto_anoncreds_claim_attributes_builder_finalize(Some(claim_attrs_builder));
    assert!(claim_attrs.is_ok());

    let res = indy_crypto_anoncreds_claim_attributes_free(claim_attrs.ok());
    assert_eq!(res, Ok(()));
}

#[test]
fn indy_crypto_anoncreds_claim_attributes_builder_finalize_works() {
    let claim_attrs_builder = indy_crypto_anoncreds_claim_attributes_builder_new();
    assert!(claim_attrs_builder.is_ok());

    let claim_attrs_builder = indy_crypto_anoncreds_claim_attributes_builder_add_attr(
        claim_attrs_builder.ok(),
        Some("sex"),
    );
    assert!(claim_attrs_builder.is_ok());

    let claim_attrs_builder = indy_crypto_anoncreds_claim_attributes_builder_add_attr(
        claim_attrs_builder.ok(),
        Some("name"),
    );
    assert!(claim_attrs_builder.is_ok());

    let claim_attrs_builder = indy_crypto_anoncreds_claim_attributes_builder_add_attr(
        claim_attrs_builder.ok(),
        Some("age"),
    );
    assert!(claim_attrs_builder.is_ok());

    let claim_attrs =
        indy_crypto_anoncreds_claim_attributes_builder_finalize(claim_attrs_builder.ok());
    assert!(claim_attrs.is_ok());
    let claim_attrs = claim_attrs.unwrap();
    assert_eq!(claim_attrs.len(), 3);
    assert_eq!(claim_attrs.names(), strings(&["age", "name", "sex"]));

    let res = indy_crypto_anoncreds_claim_attributes_free(Some(claim_attrs));
    assert_eq!(res, Ok(()));
}

#[test]
fn indy_crypto_anoncreds_claim_attributes_values_builder_new_works() {
    let claim_attrs_values_builder = indy_crypto_anoncreds_claim_attributes_values_builder_new();
    assert!(claim_attrs_values_builder.is_ok());

    let claim_attrs_values = indy_crypto_anoncreds_claim_attributes_values_builder_finalize(
        claim_attrs_values_builder.ok(),
    );
    assert!(claim_attrs_values.is_ok());

    let res = indy_crypto_anoncreds_claim_attributes_values_free(claim_attrs_values.ok());
    assert_eq!(res, Ok(()));
}

#[test]
fn indy_crypto_anoncreds_claim_attributes_values_builder_add_attr_value_works() {
    let claim_attrs_values_builder = indy_crypto_anoncreds_claim_attributes_values_builder_new();
    assert!(claim_attrs_values_builder.is_ok());

    let claim_attrs_values_builder =
        indy_crypto_anoncreds_claim_attributes_values_builder_add_attr_value(
            claim_attrs_values_builder.ok(),
            Some("sex"),
            Some(SEX_DEC_VALUE),
        );
    assert!(claim_attrs_values_builder.is_ok());

    let claim_attrs_values_builder =
        indy_crypto_anoncreds_claim_attributes_values_builder_add_attr_value(
            claim_attrs_values_builder.ok(),
            Some("name"),
            Some(NAME_DEC_VALUE),
        );
    assert!(claim_attrs_values_builder.is_ok());
    let claim_attrs_values_builder = claim_attrs_values_builder.unwrap();
    assert_eq!(claim_attrs_values_builder.len(), 2);
    assert!(claim_attrs_values_builder.contains_key("sex"));
    assert!(claim_attrs_values_builder.contains_key("name"));

    let claim_attrs_values = indy_crypto_anoncreds_claim_attributes_values_builder_finalize(Some(
        claim_attrs_values_builder,
    ));
    assert!(claim_attrs_values.is_ok());

    let res = indy_crypto_anoncreds_claim_attributes_values_free(claim_attrs_values.ok());
    assert_eq!(res, Ok(()));
}

#[test]
fn indy_crypto_anoncreds_claim_attributes_values_builder_free_works() {
    let claim_attrs_values_builder = indy_crypto_anoncreds_claim_attributes_values_builder_new();
    assert!(claim_attrs_values_builder.is_ok());

    let claim_attrs_values_builder =
        indy_crypto_anoncreds_claim_attributes_values_builder_add_attr_value(
            claim_attrs_values_builder.ok(),
            Some("sex"),
            Some(SEX_DEC_VALUE),
        );
    assert!(claim_attrs_values_builder.is_ok());

    let claim_attrs_values_builder =
        indy_crypto_anoncreds_claim_attributes_values_builder_add_attr_value(
            claim_attrs_values_builder.ok(),
            Some("name"),
            Some(NAME_DEC_VALUE),
        );
    assert!(claim_attrs_values_builder.is_ok());

    let claim_attrs_values = indy_crypto_anoncreds_claim_attributes_values_builder_finalize(
        claim_attrs_values_builder.ok(),
    );
    assert!(claim_attrs_values.is_ok());
    let claim_attrs_values = claim_attrs_values.unwrap();
    assert_eq!(claim_attrs_values.len(), 2);
    assert_eq!(claim_attrs_values.get("sex"), Some(SEX_DEC_VALUE));
    assert_eq!(claim_attrs_values.get("name"), Some(NAME_DEC_VALUE));
    assert_eq!(claim_attrs_values.names(), strings(&["sex", "name"]));

    let res = indy_crypto_anoncreds_claim_attributes_values_free(Some(claim_attrs_values));
    assert_eq!(res, Ok(()));
}

#[test]
fn null_builder_handle_is_refused() {
    let res = indy_crypto_anoncreds_claim_attributes_builder_add_attr(None, Some("sex"));
    assert_eq!(res.err(), Some(Error::InvalidArgument));

    let res = indy_crypto_anoncreds_claim_attributes_builder_finalize(None);
    assert_eq!(res.err(), Some(Error::InvalidArgument));

    let res = indy_crypto_anoncreds_claim_attributes_values_builder_add_attr_value(
        None,
        Some("sex"),
        Some("1"),
    );
    assert_eq!(res.err(), Some(Error::InvalidArgument));

    let res = indy_crypto_anoncreds_claim_attributes_values_builder_finalize(None);
    assert_eq!(res.err(), Some(Error::InvalidArgument));
}

#[test]
fn null_product_handle_is_refused() {
    assert_eq!(
        indy_crypto_anoncreds_claim_attributes_free(None),
        Err(Error::InvalidArgument)
    );
    assert_eq!(
        indy_crypto_anoncreds_claim_attributes_values_free(None),
        Err(Error::InvalidArgument)
    );
}

#[test]
fn null_text_is_refused() {
    let builder = indy_crypto_anoncreds_claim_attributes_builder_new();
    let res = indy_crypto_anoncreds_claim_attributes_builder_add_attr(builder.ok(), None);
    assert_eq!(res.err(), Some(Error::InvalidArgument));

    let builder = indy_crypto_anoncreds_claim_attributes_values_builder_new();
    let res = indy_crypto_anoncreds_claim_attributes_values_builder_add_attr_value(
        builder.ok(),
        None,
        Some("1"),
    );
    assert_eq!(res.err(), Some(Error::InvalidArgument));

    let builder = indy_crypto_anoncreds_claim_attributes_values_builder_new();
    let res = indy_crypto_anoncreds_claim_attributes_values_builder_add_attr_value(
        builder.ok(),
        Some("sex"),
        None,
    );
    assert_eq!(res.err(), Some(Error::InvalidArgument));
}

#[test]
fn null_text_is_refused_before_the_other_text_is_read() {
    // a null value beside an empty name, a null name beside a malformed value
    let builder = indy_crypto_anoncreds_claim_attributes_values_builder_new();
    let res = indy_crypto_anoncreds_claim_attributes_values_builder_add_attr_value(
        builder.ok(),
        Some(""),
        None,
    );
    assert_eq!(res.err(), Some(Error::InvalidArgument));

    let builder = indy_crypto_anoncreds_claim_attributes_values_builder_new();
    let res = indy_crypto_anoncreds_claim_attributes_values_builder_add_attr_value(
        builder.ok(),
        None,
        Some("12a3"),
    );
    assert_eq!(res.err(), Some(Error::InvalidArgument));
}

#[test]
fn handle_level_errors_are_those_of_the_builders() {
    let builder = indy_crypto_anoncreds_claim_attributes_builder_new();
    let res = indy_crypto_anoncreds_claim_attributes_builder_add_attr(builder.ok(), Some(""));
    assert_eq!(res.err(), Some(Error::InvalidArgument));

    let builder = indy_crypto_anoncreds_claim_attributes_builder_new();
    let builder =
        indy_crypto_anoncreds_claim_attributes_builder_add_attr(builder.ok(), Some("sex"));
    let res = indy_crypto_anoncreds_claim_attributes_builder_add_attr(builder.ok(), Some("sex"));
    assert_eq!(res.err(), Some(Error::DuplicateAttribute));

    let builder = indy_crypto_anoncreds_claim_attributes_values_builder_new();
    let res = indy_crypto_anoncreds_claim_attributes_values_builder_add_attr_value(
        builder.ok(),
        Some("sex"),
        Some(""),
    );
    assert_eq!(res.err(), Some(Error::InvalidNumericFormat));

    let builder = indy_crypto_anoncreds_claim_attributes_values_builder_new();
    let builder = indy_crypto_anoncreds_claim_attributes_values_builder_add_attr_value(
        builder.ok(),
        Some("sex"),
        Some("1"),
    );
    let res = indy_crypto_anoncreds_claim_attributes_values_builder_add_attr_value(
        builder.ok(),
        Some("sex"),
        Some("2"),
    );
    assert_eq!(res.err(), Some(Error::DuplicateAttribute));
}

#[test]
fn new_builders_are_empty() {
    let builder = indy_crypto_anoncreds_claim_attributes_builder_new().unwrap();
    assert_eq!(builder.len(), 0);
    let set = indy_crypto_anoncreds_claim_attributes_builder_finalize(Some(builder)).unwrap();
    assert_eq!(set.len(), 0);
    assert!(set.is_empty());

    let builder = indy_crypto_anoncreds_claim_attributes_values_builder_new().unwrap();
    assert_eq!(builder.len(), 0);
    let map =
        indy_crypto_anoncreds_claim_attributes_values_builder_finalize(Some(builder)).unwrap();
    assert_eq!(map.len(), 0);
    assert!(map.is_empty());
}

#[test]
fn a_released_handle_is_dead() {
    let builder = indy_crypto_anoncreds_claim_attributes_builder_new();
    let builder =
        indy_crypto_anoncreds_claim_attributes_builder_add_attr(builder.ok(), Some("sex"));
    let mut handle = indy_crypto_anoncreds_claim_attributes_builder_finalize(builder.ok()).ok();
    assert!(handle.is_some());

    // the handle goes into the call and leaves the null handle behind
    let res = indy_crypto_anoncreds_claim_attributes_free(handle.take());
    assert_eq!(res, Ok(()));
    assert!(handle.is_none());
    assert_eq!(
        indy_crypto_anoncreds_claim_attributes_free(handle),
        Err(Error::InvalidArgument)
    );

    let builder = indy_crypto_anoncreds_claim_attributes_values_builder_new();
    let builder = indy_crypto_anoncreds_claim_attributes_values_builder_add_attr_value(
        builder.ok(),
        Some("sex"),
        Some("1"),
    );
    let mut handle =
        indy_crypto_anoncreds_claim_attributes_values_builder_finalize(builder.ok()).ok();
    assert!(handle.is_some());

    let res = indy_crypto_anoncreds_claim_attributes_values_free(handle.take());
    assert_eq!(res, Ok(()));
    assert!(handle.is_none());
    assert_eq!(
        indy_crypto_anoncreds_claim_attributes_values_free(handle),
        Err(Error::InvalidArgument)
    );
}

#[test]
fn a_consumed_builder_handle_is_dead_after_a_failed_step() {
    let builder = indy_crypto_anoncreds_claim_attributes_builder_new();
    let mut handle =
        indy_crypto_anoncreds_claim_attributes_builder_add_attr(builder.ok(), Some("sex")).ok();

    let res = indy_crypto_anoncreds_claim_attributes_builder_add_attr(handle.take(), Some("sex"));
    assert_eq!(res.err(), Some(Error::DuplicateAttribute));
    assert!(handle.is_none());

    let res = indy_crypto_anoncreds_claim_attributes_builder_finalize(handle);
    assert_eq!(res.err(), Some(Error::InvalidArgument));
}
