//! The two switches that the framework consults: whether operations are recorded
//! for differentiation, and whether the network is being trained.
use vstd::prelude::*;

verus! {

/// The current setting of both switches.
#[derive(Debug, Clone, Copy, PartialEq, Eq, Structural)]
pub struct Config {
    pub enable_backprop: bool,
    pub train: bool,
}

/// One of the two switches.
#[derive(Debug, Clone, Copy, PartialEq, Eq, Structural)]
pub enum Flag {
    EnableBackprop,
    Train,
}

impl Config {
    /// The setting of one switch.
    pub open spec fn at(self, flag: Flag) -> bool {
        match flag {
            Flag::EnableBackprop => self.enable_backprop,
            Flag::Train => self.train,
        }
    }

    /// The configuration with one switch set.
    pub open spec fn with(self, flag: Flag, value: bool) -> Config {
        match flag {
            Flag::EnableBackprop => Config { enable_backprop: value, ..self },
            Flag::Train => Config { train: value, ..self },
        }
    }

    /// Recording, and training.
    pub fn new() -> (r: Config)
        ensures
            r == (Config { enable_backprop: true, train: true }),
    {
        Config { enable_backprop: true, train: true }
    }
}

impl Default for Config {
    fn default() -> (r: Config)
        ensures
            r == (Config { enable_backprop: true, train: true }),
    {
        Config { enable_backprop: true, train: true }
    }
}

impl Flag {
    pub fn get(self, config: &Config) -> (r: bool)
        ensures
            r == config.at(self),
    {
        match self {
            Flag::EnableBackprop => config.enable_backprop,
            Flag::Train => config.train,
        }
    }

    /// Sets the switch and returns what it was set to before.
    pub fn replace(self, config: &mut Config, value: bool) -> (previous: bool)
        ensures
            previous == old(config).at(self),
            *final(config) == old(config).with(self, value),
    {
        match self {
            Flag::EnableBackprop => {
                let previous = config.enable_backprop;
                config.enable_backprop = value;
                previous
            },
            Flag::Train => {
                let previous = config.train;
                config.train = value;
                previous
            },
        }
    }
}

/// Whether operations are recorded.
pub fn enable_backprop(config: &Config) -> (r: bool)
    ensures
        r == config.enable_backprop,
{
    Flag::EnableBackprop.get(config)
}

/// Whether the network is being trained.
pub fn is_train(config: &Config) -> (r: bool)
    ensures
        r == config.train,
{
    Flag::Train.get(config)
}

/// Remembers what a switch was set to, so that it can be set back.
#[derive(Debug, PartialEq, Eq, Structural)]
pub struct ConfigGuard {
    pub flag: Flag,
    pub previous: bool,
}

impl ConfigGuard {
    /// Sets a switch, remembering what it was set to.
    pub fn new(flag: Flag, config: &mut Config, value: bool) -> (guard: ConfigGuard)
        ensures
            guard == (ConfigGuard { flag, previous: old(config).at(flag) }),
            *final(config) == old(config).with(flag, value),
    {
        let previous = flag.replace(config, value);
        ConfigGuard { flag, previous }
    }

    /// Sets the switch back, leaving the other one as it is.
    pub fn restore(self, config: &mut Config)
        ensures
            *final(config) == old(config).with(self.flag, self.previous),
    {
        let _ = self.flag.replace(config, self.previous);
    }
}

/// Stops recording until the guard is restored.
pub fn no_grad(config: &mut Config) -> (guard: ConfigGuard)
    ensures
        guard == (ConfigGuard {
            flag: Flag::EnableBackprop,
            previous: old(config).enable_backprop,
        }),
        *final(config) == (Config { enable_backprop: false, ..*old(config) }),
{
    ConfigGuard::new(Flag::EnableBackprop, config, false)
}

/// Leaves training mode until the guard is restored.
pub fn test_mode(config: &mut Config) -> (guard: ConfigGuard)
    ensures
        guard == (ConfigGuard { flag: Flag::Train, previous: old(config).train }),
        *final(config) == (Config { train: false, ..*old(config) }),
{
    ConfigGuard::new(Flag::Train, config, false)
}

/// Switches recording on or off until the guard is restored.
pub fn using_enable_backprop(config: &mut Config, value: bool) -> (guard: ConfigGuard)
    ensures
        guard == (ConfigGuard {
            flag: Flag::EnableBackprop,
            previous: old(config).enable_backprop,
        }),
        *final(config) == (Config { enable_backprop: value, ..*old(config) }),
{
    ConfigGuard::new(Flag::EnableBackprop, config, value)
}

/// The configuration after a list of switches has been set, in order.
pub open spec fn entered(config: Config, settings: Seq<(Flag, bool)>) -> Config
    decreases settings.len(),
{
    if settings.len() == 0 {
        config
    } else {
        entered(config, settings.drop_last()).with(settings.last().0, settings.last().1)
    }
}

/// The configuration after the guards of those settings have been restored, the last
/// one first.
pub open spec fn left(config: Config, settings: Seq<(Flag, bool)>, current: Config) -> Config
    decreases settings.len(),
{
    if settings.len() == 0 {
        current
    } else {
        let outer = entered(config, settings.drop_last());
        let flag = settings.last().0;
        left(config, settings.drop_last(), current.with(flag, outer.at(flag)))
    }
}

/// Restoring nested guards in reverse order gives the configuration back that the
/// first of them found.
pub proof fn nested_guards_restore_in_reverse(config: Config, settings: Seq<(Flag, bool)>)
    ensures
        left(config, settings, entered(config, settings)) == config,
    decreases settings.len(),
{
    if settings.len() > 0 {
        nested_guards_restore_in_reverse(config, settings.drop_last());
        let outer = entered(config, settings.drop_last());
        let (flag, value) = settings.last();
        assert(outer.with(flag, value).with(flag, outer.at(flag)) == outer);
    }
}

} // verus!
