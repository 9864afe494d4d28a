//! Server configuration: the listening port, the replication role,
//! and what a replica learns from its primary during the handshake.

use vstd::prelude::*;

verus! {

/// Renders a configuration section as text.
pub trait ToConfigString {
    fn to_config_string(&self) -> String;
}

/// The replication role: a primary with its id and offset, or a
/// replica of the given upstream address.
#[derive(Clone, Debug)]
pub enum Roles {
    Master(String, u8),
    Slave(String),
}

/// The replication half of the configuration.
#[derive(Clone, Debug)]
pub struct ReplicationConfig {
    pub role: Roles,
    pub master_repl_id: Option<String>,
    pub master_repl_offset: Option<i32>,
}

/// The listener half of the configuration.
#[derive(Clone, Debug)]
pub struct ServerConfig {
    pub port: u16,
}

/// The whole configuration a connection carries.
#[derive(Clone, Debug)]
pub struct Config {
    pub server_config: ServerConfig,
    pub replication_config: ReplicationConfig,
}

/// The character for one decimal digit.
pub open spec fn digit_char(d: int) -> char {
    if d == 0 {
        '0'
    } else if d == 1 {
        '1'
    } else if d == 2 {
        '2'
    } else if d == 3 {
        '3'
    } else if d == 4 {
        '4'
    } else if d == 5 {
        '5'
    } else if d == 6 {
        '6'
    } else if d == 7 {
        '7'
    } else if d == 8 {
        '8'
    } else {
        '9'
    }
}

/// The decimal text of a non-negative integer, as characters.
pub open spec fn udec_chars(n: int) -> Seq<char>
    recommends
        n >= 0,
    decreases n,
{
    if n < 10 {
        seq![digit_char(n)]
    } else {
        udec_chars(n / 10).push(digit_char(n % 10))
    }
}

/// Appends the decimal text of `n` to `out`.
pub fn push_udec_chars(n: u64, out: &mut String)
    ensures
        final(out)@ == old(out)@ + udec_chars(n as int),
    decreases n,
{
    if n >= 10 {
        push_udec_chars(n / 10, out);
    }
    let d = n % 10;
    proof {
        reveal_strlit("0");
        reveal_strlit("1");
        reveal_strlit("2");
        reveal_strlit("3");
        reveal_strlit("4");
        reveal_strlit("5");
        reveal_strlit("6");
        reveal_strlit("7");
        reveal_strlit("8");
        reveal_strlit("9");
    }
    if d == 0 {
        out.append("0");
    } else if d == 1 {
        out.append("1");
    } else if d == 2 {
        out.append("2");
    } else if d == 3 {
        out.append("3");
    } else if d == 4 {
        out.append("4");
    } else if d == 5 {
        out.append("5");
    } else if d == 6 {
        out.append("6");
    } else if d == 7 {
        out.append("7");
    } else if d == 8 {
        out.append("8");
    } else {
        out.append("9");
    }
    proof {
        if n < 10 {
            assert(old(out)@ + seq![digit_char(n as int)] =~= out@);
        } else {
            assert(old(out)@ + udec_chars(n as int) =~= out@);
        }
    }
}

/// The text a role renders to: the primary names its id and offset,
/// a replica only its role.
pub open spec fn role_text(role: Roles) -> Seq<char> {
    match role {
        Roles::Master(id, offset) => "role:master\nmaster_replid:"@ + id@
            + "\nmaster_repl_offset:"@ + udec_chars(offset as int),
        Roles::Slave(_) => "role:slave"@,
    }
}

impl ReplicationConfig {
    /// Renders the role line(s) of the replication section.
    fn convert_role_to_string(&self) -> (r: String)
        ensures
            r@ == role_text(self.role),
    {
        match &self.role {
            Roles::Master(id, offset) => {
                let mut out = String::from_str("role:master\nmaster_replid:");
                out.append(id.as_str());
                out.append("\nmaster_repl_offset:");
                push_udec_chars(*offset as u64, &mut out);
                out
            },
            Roles::Slave(_) => String::from_str("role:slave"),
        }
    }

    /// Renders the whole replication section.
    pub fn section_string(&self) -> (r: String)
        ensures
            r@ == "# Replication\n"@ + role_text(self.role),
    {
        let mut out = String::from_str("# Replication\n");
        let role = self.convert_role_to_string();
        out.append(role.as_str());
        out
    }
}

impl ToConfigString for ReplicationConfig {
    fn to_config_string(&self) -> String {
        self.section_string()
    }
}

/// Command-line arguments that shape the server: the port and the
/// optional primary to replicate from.
pub struct BaseCliArgs {
    pub port: Option<u16>,
    pub replicaof: Option<String>,
}

impl BaseCliArgs {
    /// The configured port, or the default when none was given.
    pub fn get_port_or_default(&self, default_port: u16) -> (r: u16)
        ensures
            r == match self.port {
                Some(p) => p,
                None => default_port,
            },
    {
        if let Some(port) = self.port {
            return port;
        }
        default_port
    }

    /// The role these arguments ask for: a replica of the named
    /// address, or a fresh primary under a random 40-character id.
    pub fn get_role(&self) -> (r: Roles)
        ensures
            match self.replicaof {
                Some(addr) => r matches Roles::Slave(a) && a@ == addr@,
                None => r matches Roles::Master(id, offset) && id@.len() == 40 && offset == 0,
            },
    {
        if let Some(addr) = &self.replicaof {
            return Roles::Slave(crate::store::clone_string(addr));
        }
        Roles::Master(self.generate_master_id(), 0)
    }

    /// Relies on rand's `Alphanumeric.sample_string`: it appends
    /// exactly the asked-for number of alphanumeric characters. The
    /// result is random; only its length is assumed.
    #[verifier::external_body]
    pub fn generate_master_id(&self) -> (r: String)
        ensures
            r@.len() == 40,
    {
        rand::distr::SampleString::sample_string(&rand::distr::Alphanumeric, &mut rand::rng(), 40)
    }
}

/// A capability a replica announces during the handshake.
pub enum Capabilities {
    Psync,
}

impl Capabilities {
    /// The capability's wire name.
    pub fn to_string(&self) -> (r: String)
        ensures
            r@ == "psync"@,
    {
        match self {
            Capabilities::Psync => String::from_str("psync"),
        }
    }
}

/// One REPLCONF announcement a replica sends upstream.
pub enum Replconf {
    ListeningPort(u16),
    Capa(Capabilities),
}

} // verus!
