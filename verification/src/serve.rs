//! The `tailscale serve` command line.

use crate::number::{decimal, decimal_string};
use crate::text::texts;
use vstd::prelude::*;

verus! {

/// HTTPS ports Tailscale reserves for Funnel; Poros never touches them.
pub const RESERVED_FUNNEL_PORTS: [u16; 3] = [443, 8443, 10000];

/// Whether a port is reserved for Funnel.
pub open spec fn is_reserved(port: u16) -> bool {
    RESERVED_FUNNEL_PORTS@.contains(port)
}

/// Whether a port is reserved for Funnel.
pub fn is_funnel_port(port: u16) -> (r: bool)
    ensures
        r == is_reserved(port),
{
    let ports: [u16; 3] = RESERVED_FUNNEL_PORTS;
    let found: bool = port == ports[0] || port == ports[1] || port == ports[2];
    assert(ports@[0] == ports[0] && ports@[1] == ports[1] && ports@[2] == ports[2]);
    found
}

/// Builds the arguments of the exact `tailscale serve` invocation: one
/// foreground session on a dedicated HTTPS port proxying the loopback bridge.
pub fn serve_command(https_port: u16, bridge: &str) -> (r: Vec<String>)
    ensures
        texts(r@) == seq![
            "serve"@,
            "--bg=false"@,
            "--https="@ + decimal(https_port as nat),
            bridge@,
        ],
{
    let mut port: String = "--https=".to_owned();
    let number: String = decimal_string(https_port as u64);
    port.append(number.as_str());
    let mut out: Vec<String> = Vec::new();
    out.push("serve".to_owned());
    out.push("--bg=false".to_owned());
    out.push(port);
    out.push(bridge.to_owned());
    assert(texts(out@) =~= seq![
        "serve"@,
        "--bg=false"@,
        "--https="@ + decimal(https_port as nat),
        bridge@,
    ]);
    out
}

} // verus!
