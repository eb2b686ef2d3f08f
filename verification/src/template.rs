//! NETCONF skeleton templates: the fixed RFC 6241 message layer (`hello`, a
//! `get-config` and an `edit-config` RPC, and a bare `config` payload root).

use vstd::prelude::*;
use crate::text::str_eq;

verus! {

/// `<hello>` with the base capability (RFC 6241 §8.1).
pub const HELLO: &'static str = "<?xml version=\"1.0\" encoding=\"UTF-8\"?>
<hello xmlns=\"urn:ietf:params:xml:ns:netconf:base:1.0\">
  <capabilities>
    <capability>urn:ietf:params:netconf:base:1.1</capability>
  </capabilities>
</hello>
";

/// `<rpc>` wrapping a `<get-config>` against `<running>` with a subtree filter.
pub const RPC_GET_CONFIG: &'static str = "<rpc message-id=\"101\" xmlns=\"urn:ietf:params:xml:ns:netconf:base:1.0\">
  <get-config>
    <source>
      <running/>
    </source>
    <filter type=\"subtree\">
      <!-- data subtree here -->
    </filter>
  </get-config>
</rpc>
";

/// `<rpc>` wrapping an `<edit-config>` merge into `<running>`.
pub const RPC_EDIT_CONFIG: &'static str = "<rpc message-id=\"102\" xmlns=\"urn:ietf:params:xml:ns:netconf:base:1.0\">
  <edit-config>
    <target>
      <running/>
    </target>
    <default-operation>merge</default-operation>
    <config>
      <!-- module data here -->
    </config>
  </edit-config>
</rpc>
";

/// A bare `<config>` payload root.
pub const CONFIG_PAYLOAD: &'static str = "<?xml version=\"1.0\" encoding=\"UTF-8\"?>
<config xmlns=\"urn:ietf:params:xml:ns:netconf:base:1.0\">
  <!-- module data here -->
</config>
";

/// The template text that `kind` names, if it names one.
pub open spec fn skeleton_text(kind: Seq<char>) -> Option<Seq<char>> {
    if kind == "hello"@ {
        Some(HELLO@)
    } else if kind == "get-config"@ {
        Some(RPC_GET_CONFIG@)
    } else if kind == "edit-config"@ {
        Some(RPC_EDIT_CONFIG@)
    } else if kind == "config"@ {
        Some(CONFIG_PAYLOAD@)
    } else {
        None
    }
}

/// The skeleton text for `kind`, if known.
pub fn skeleton(kind: &str) -> (r: Option<&'static str>)
    ensures
        r is Some <==> skeleton_text(kind@) is Some,
        r matches Some(t) ==> t@ == skeleton_text(kind@).unwrap(),
{
    if str_eq(kind, "hello") {
        Some(HELLO)
    } else if str_eq(kind, "get-config") {
        Some(RPC_GET_CONFIG)
    } else if str_eq(kind, "edit-config") {
        Some(RPC_EDIT_CONFIG)
    } else if str_eq(kind, "config") {
        Some(CONFIG_PAYLOAD)
    } else {
        None
    }
}

} // verus!
