use dezero::engine::config::{
    enable_backprop, is_train, no_grad, test_mode, using_enable_backprop, Config,
};

#[test]
fn defaults_are_training_with_backprop() {
    let config = Config::default();
    assert!(enable_backprop(&config));
    assert!(is_train(&config));
}

#[test]
fn no_grad_scopes_and_restores() {
    let mut config = Config::default();
    assert!(enable_backprop(&config));
    {
        let guard = no_grad(&mut config);
        assert!(!enable_backprop(&config));
        guard.restore(&mut config);
    }
    assert!(enable_backprop(&config));
}

#[test]
fn test_mode_scopes_and_restores() {
    let mut config = Config::default();
    assert!(is_train(&config));
    {
        let guard = test_mode(&mut config);
        assert!(!is_train(&config));
        // The other flag is untouched.
        assert!(enable_backprop(&config));
        guard.restore(&mut config);
    }
    assert!(is_train(&config));
}

#[test]
fn guards_nest_and_restore_in_reverse_order() {
    let mut config = Config::default();
    let outer = no_grad(&mut config);
    assert!(!enable_backprop(&config));
    {
        let inner = using_enable_backprop(&mut config, true);
        assert!(enable_backprop(&config));
        inner.restore(&mut config);
    }
    assert!(!enable_backprop(&config));
    outer.restore(&mut config);
    assert!(enable_backprop(&config));
}
