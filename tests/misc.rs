use mockomatic::auth::AuthBody;
use mockomatic::error::AppError;
use mockomatic::model::Availability;

#[test]
fn auth_body_is_a_bearer_token() {
    let b = AuthBody::new(
        String::from("token"),
        String::from("alice"),
        String::from("admin"),
        String::from("org"),
    );
    assert_eq!(b.access_token, "token");
    assert_eq!(b.token_type, "Bearer ");
    assert_eq!(b.username, "alice");
    assert_eq!(b.role, "admin");
    assert_eq!(b.organisation, "org");
}

#[test]
fn availability_constructors() {
    assert_eq!(Availability::am_only(), Availability { am: true, pm: false });
    assert_eq!(Availability::pm_only(), Availability { am: false, pm: true });
    assert_eq!(Availability::any(), Availability { am: true, pm: true });
}

#[test]
fn error_messages() {
    assert_eq!(AppError::Infeasible.message(), "no feasible assignment");
    assert_eq!(AppError::CapacityExceeded { supply: 3, capacity: 2 }.message(), "capacity exceeded");
    assert_eq!(AppError::ImbalanceUnresolved.message(), "imbalance unresolved");
    assert_eq!(AppError::SolverFailure.message(), "the solver failed");
}
