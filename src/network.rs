use vstd::prelude::*;

verus! {

/// The networks a node may run on.
#[derive(Clone, Copy, Debug, PartialEq, Eq, Structural)]
pub enum Network {
    Bitcoin,
    Testnet,
    Testnet4,
    Regtest,
    Signet,
}

impl Network {
    pub open spec fn rpc_port_spec(self) -> u16 {
        match self {
            Network::Bitcoin => 8332,
            Network::Testnet => 18332,
            Network::Testnet4 => 48332,
            Network::Regtest => 18443,
            Network::Signet => 38332,
        }
    }

    /// The node's default RPC port on this network.
    pub fn default_rpc_port(&self) -> (r: u16)
        ensures
            r == self.rpc_port_spec(),
    {
        match self {
            Network::Bitcoin => 8332,
            Network::Testnet => 18332,
            Network::Testnet4 => 48332,
            Network::Regtest => 18443,
            Network::Signet => 38332,
        }
    }

    /// The name of this network's index directory.
    pub fn default_index_dir(&self) -> (r: &'static str)
        ensures
            r@ == match self {
                Network::Bitcoin => "bitcoin"@,
                Network::Testnet => "testnet"@,
                Network::Testnet4 => "testnet4"@,
                Network::Regtest => "regtest"@,
                Network::Signet => "signet"@,
            },
    {
        match self {
            Network::Bitcoin => "bitcoin",
            Network::Testnet => "testnet",
            Network::Testnet4 => "testnet4",
            Network::Regtest => "regtest",
            Network::Signet => "signet",
        }
    }
}

} // verus!
