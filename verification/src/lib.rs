//! CloudBoot: a bare-metal provisioning controller library.
//!
//! The crate models the controller's inventory of physical hosts and the
//! decisions the controller takes while driving each host through a fixed
//! installation workflow: parsing DHCP leases, reconciling probe results
//! into the inventory, admitting queued hosts to installation, rebooting
//! them into kickstart, configuring them after installation, and resolving
//! iPXE boot-script requests.

pub mod discovery;
pub mod inventory;
pub mod ipxe_script;
pub mod lease;
pub mod progress;
pub mod progress_control;
pub mod text;
