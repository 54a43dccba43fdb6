use zenoh_net::declare::{body_kind, present_if, DeclareKind};
use zenoh_net::declare::{
    Declare, DeclareBody, DeclareFinal, DeclareKeyExpr, DeclareQueryable, DeclareSubscriber,
    DeclareToken, Mapping, QueryableInfoType, UndeclareQueryable, UndeclareSubscriber,
    UndeclareToken, WireExpr, WireExprType,
};

#[test]
fn the_null_extension_is_null() {
    let w = WireExprType::null();
    assert!(w.is_null());
    assert_eq!(w.wire_expr.scope, 0);
    assert_eq!(w.wire_expr.suffix, "");
    assert_eq!(w.wire_expr.mapping, Mapping::Receiver);
}

#[test]
fn a_scope_or_a_suffix_makes_a_key_expression_non_empty() {
    let scoped = WireExpr { scope: 3, suffix: String::new(), mapping: Mapping::Sender };
    assert!(!scoped.is_empty());
    let named = WireExpr { scope: 0, suffix: "a/b".to_string(), mapping: Mapping::Receiver };
    assert!(!named.is_empty());
    assert!(!WireExprType { wire_expr: named }.is_null());
    let empty = WireExpr { scope: 0, suffix: String::new(), mapping: Mapping::Sender };
    assert!(empty.is_empty());
}

#[test]
fn random_key_expressions_have_the_documented_shape() {
    for _ in 0..500 {
        let w = WireExpr::rand();
        assert!(w.scope < 20);
        assert_eq!(w.mapping, Mapping::Receiver);
        let n = w.suffix.chars().count();
        assert!(n == 0 || (2..64).contains(&n), "suffix of {n} characters");
        assert!(w.suffix.chars().all(|c| c.is_ascii_alphanumeric()));
    }
}

#[test]
fn random_key_expressions_vary() {
    let first = WireExpr::rand();
    assert!((0..200).any(|_| WireExpr::rand() != first));
}

#[test]
fn random_declarations_never_pre_subscribe_nor_update_routes() {
    for _ in 0..500 {
        let body = DeclareBody::rand();
        assert!(!matches!(body, DeclareBody::DeclarePreSubscriber(_)));
        assert!(!matches!(body, DeclareBody::DeclareRouteUpdate(_)));
        let d = Declare::rand();
        assert!(!matches!(d.body, DeclareBody::DeclarePreSubscriber(_)));
        assert!(!matches!(d.body, DeclareBody::DeclareRouteUpdate(_)));
    }
}

#[test]
fn random_declarations_cover_the_kinds() {
    let mut seen = [false; 9];
    for _ in 0..2000 {
        let i = match DeclareBody::rand() {
            DeclareBody::DeclareKeyExpr(_) => 0,
            DeclareBody::UndeclareKeyExpr(_) => 1,
            DeclareBody::DeclareSubscriber(_) => 2,
            DeclareBody::UndeclareSubscriber(_) => 3,
            DeclareBody::DeclareQueryable(_) => 4,
            DeclareBody::UndeclareQueryable(_) => 5,
            DeclareBody::DeclareToken(_) => 6,
            DeclareBody::UndeclareToken(_) => 7,
            DeclareBody::DeclareFinal(_) => 8,
            _ => panic!("unexpected declaration"),
        };
        seen[i] = true;
    }
    assert!(seen.iter().all(|s| *s));
}

#[test]
fn random_entities_keep_their_scope_bound() {
    for _ in 0..200 {
        assert!(DeclareKeyExpr::rand().wire_expr.scope < 20);
        assert!(DeclareSubscriber::rand().wire_expr.scope < 20);
        assert!(UndeclareSubscriber::rand().ext_wire_expr.wire_expr.scope < 20);
        assert!(DeclareQueryable::rand().wire_expr.scope < 20);
        assert!(UndeclareQueryable::rand().ext_wire_expr.wire_expr.scope < 20);
        assert!(DeclareToken::rand().wire_expr.scope < 20);
        assert!(UndeclareToken::rand().ext_wire_expr.wire_expr.scope < 20);
        assert!(WireExprType::rand().wire_expr.scope < 20);
    }
}

#[test]
fn the_final_declaration_and_default_queryable_info() {
    assert_eq!(DeclareFinal::rand(), DeclareFinal);
    assert_eq!(
        QueryableInfoType::default_info(),
        QueryableInfoType { complete: false, distance: 0 }
    );
}

#[test]
fn key_expressions_are_built_from_their_draws() {
    let w = WireExpr::from_draws(7, true, "ab1".to_string());
    assert_eq!((w.scope, w.suffix.as_str(), w.mapping), (7, "ab1", Mapping::Receiver));
    let w = WireExpr::from_draws(19, false, "ignored".to_string());
    assert_eq!((w.scope, w.suffix.as_str()), (19, ""));
}

#[test]
fn each_draw_selects_its_kind() {
    let kinds = [
        DeclareKind::KeyExpr,
        DeclareKind::UndeclareKeyExpr,
        DeclareKind::Subscriber,
        DeclareKind::UndeclareSubscriber,
        DeclareKind::Queryable,
        DeclareKind::UndeclareQueryable,
        DeclareKind::Token,
        DeclareKind::UndeclareToken,
        DeclareKind::Final,
    ];
    for (pick, kind) in kinds.iter().enumerate() {
        assert_eq!(body_kind(pick as u64), *kind);
    }
    assert!(matches!(DeclareBody::rand_of_kind(DeclareKind::Token), DeclareBody::DeclareToken(_)));
    assert!(matches!(DeclareBody::rand_of_kind(DeclareKind::Final), DeclareBody::DeclareFinal(_)));
}

#[test]
fn an_optional_field_is_present_only_when_drawn() {
    assert_eq!(present_if(true, 5u32), Some(5));
    assert_eq!(present_if(false, 5u32), None);
}
