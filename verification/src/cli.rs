//! Command-line options and what they decide: the log level, where the
//! configuration comes from, and the settings they override.

use vstd::prelude::*;
use vstd::string::*;
use crate::config::Settings;

verus! {

/// The subcommands.
#[derive(Debug, Clone)]
pub enum Commands {
    /// List available network interfaces
    ListInterfaces,
    /// Generate example configuration file
    GenConfig {
        /// Output file path
        output: String,
    },
    /// Validate configuration file
    ValidateConfig {
        /// Configuration file to validate
        config: String,
    },
    /// Run the reflector
    Run,
}

/// A secure, high-performance multicast DNS reflector.
#[derive(Debug, Clone)]
pub struct Cli {
    /// Network interfaces to reflect mDNS traffic between
    pub interfaces: Vec<String>,
    /// Configuration file path
    pub config_file: Option<String>,
    /// Enable foreground mode (do not daemonize)
    pub foreground: bool,
    /// Verbose logging (count of -v)
    pub verbose: u8,
    /// Disable IPv4
    pub no_ipv4: bool,
    /// Disable IPv6
    pub no_ipv6: bool,
    /// Maximum TTL for reflected packets
    pub max_ttl: u32,
    /// Rate limit in packets per second (0 = unlimited)
    pub rate_limit: u64,
    /// Disable loop prevention
    pub no_loop_prevention: bool,
    /// Subcommand
    pub command: Option<Commands>,
}

/// The log level for a verbosity count.
pub open spec fn log_level_for(verbose: u8) -> Seq<char> {
    if verbose == 0 {
        "info"@
    } else if verbose == 1 {
        "debug"@
    } else {
        "trace"@
    }
}

/// Where the configuration of a run comes from.
#[derive(Debug, Clone)]
pub enum ConfigSource {
    /// A configuration file
    File(String),
    /// The interfaces named on the command line, with default settings
    Interfaces(Vec<String>),
    /// Neither was given
    Missing,
}

/// The settings after the command-line overrides.
pub open spec fn overridden(s: Settings, cli: Cli) -> Settings {
    Settings {
        enable_ipv4: if cli.no_ipv4 {
            false
        } else {
            s.enable_ipv4
        },
        enable_ipv6: if cli.no_ipv6 {
            false
        } else {
            s.enable_ipv6
        },
        max_ttl: if cli.max_ttl != 255 {
            cli.max_ttl
        } else {
            s.max_ttl
        },
        rate_limit: if cli.rate_limit != 0 {
            cli.rate_limit
        } else {
            s.rate_limit
        },
        loop_prevention: if cli.no_loop_prevention {
            false
        } else {
            s.loop_prevention
        },
        ..s
    }
}

impl Cli {
    /// Get the log level based on verbosity.
    pub fn log_level(&self) -> (r: &str)
        ensures
            r@ == log_level_for(self.verbose),
    {
        proof {
            reveal_strlit("info");
            reveal_strlit("debug");
            reveal_strlit("trace");
        }
        match self.verbose {
            0 => "info",
            1 => "debug",
            _ => "trace",
        }
    }

    /// The configuration file if one is given, else the interfaces if any.
    pub fn config_source(&self) -> (r: ConfigSource)
        ensures
            match r {
                ConfigSource::File(path) => self.config_file matches Some(p) && path@ == p@,
                ConfigSource::Interfaces(list) => self.config_file is None
                    && self.interfaces@.len() > 0 && list.deep_view() == self.interfaces.deep_view(),
                ConfigSource::Missing => self.config_file is None && self.interfaces@.len() == 0,
            },
    {
        match &self.config_file {
            Some(p) => ConfigSource::File(p.clone()),
            None => {
                if self.interfaces.len() > 0 {
                    let mut list: Vec<String> = Vec::new();
                    let mut k: usize = 0;
                    while k < self.interfaces.len()
                        invariant
                            k <= self.interfaces@.len(),
                            list.deep_view() == self.interfaces.deep_view().take(k as int),
                        decreases self.interfaces@.len() - k,
                    {
                        let ghost before = list.deep_view();
                        list.push(self.interfaces[k].clone());
                        proof {
                            assert(list.deep_view() =~= before.push(self.interfaces@[k as int]@));
                            assert(self.interfaces.deep_view().take(k + 1) =~= self.interfaces.deep_view().take(
                                k as int,
                            ).push(self.interfaces@[k as int]@));
                        }
                        k = k + 1;
                    }
                    proof {
                        assert(self.interfaces.deep_view().take(self.interfaces@.len() as int)
                            =~= self.interfaces.deep_view());
                    }
                    ConfigSource::Interfaces(list)
                } else {
                    ConfigSource::Missing
                }
            },
        }
    }

    /// Apply the command-line overrides to the settings.
    pub fn apply_overrides(&self, settings: &mut Settings)
        ensures
            *final(settings) == overridden(*old(settings), *self),
    {
        if self.no_ipv4 {
            settings.enable_ipv4 = false;
        }
        if self.no_ipv6 {
            settings.enable_ipv6 = false;
        }
        if self.max_ttl != 255 {
            settings.max_ttl = self.max_ttl;
        }
        if self.rate_limit != 0 {
            settings.rate_limit = self.rate_limit;
        }
        if self.no_loop_prevention {
            settings.loop_prevention = false;
        }
    }
}


/// Each command-line option does what it says: `--no-ipv4`, `--no-ipv6`
/// and `--no-loop-prevention` switch their feature off and otherwise leave
/// it as configured; a maximum TTL other than 255 and a non-zero rate limit
/// replace the configured ones; nothing else changes.
pub proof fn lemma_overrides_follow_options(s: Settings, cli: Cli)
    ensures
        ({
            let o = overridden(s, cli);
            &&& (o.enable_ipv4 <==> s.enable_ipv4 && !cli.no_ipv4)
            &&& (o.enable_ipv6 <==> s.enable_ipv6 && !cli.no_ipv6)
            &&& (o.loop_prevention <==> s.loop_prevention && !cli.no_loop_prevention)
            &&& (cli.max_ttl != 255 ==> o.max_ttl == cli.max_ttl)
            &&& (cli.max_ttl == 255 ==> o.max_ttl == s.max_ttl)
            &&& (cli.rate_limit != 0 ==> o.rate_limit == cli.rate_limit)
            &&& (cli.rate_limit == 0 ==> o.rate_limit == s.rate_limit)
            &&& o.enable_cache == s.enable_cache
            &&& o.cache_ttl == s.cache_ttl
            &&& o.packet_cache_ttl == s.packet_cache_ttl
            &&& o.cache_cleanup_interval == s.cache_cleanup_interval
        }),
{
}

/// Options left at their defaults change no setting.
pub proof fn lemma_default_options_keep_settings(s: Settings, cli: Cli)
    requires
        !cli.no_ipv4,
        !cli.no_ipv6,
        cli.max_ttl == 255,
        cli.rate_limit == 0,
        !cli.no_loop_prevention,
    ensures
        overridden(s, cli) == s,
{
}

} // verus!
