//! Discovery of running compute instances, enrichment with autoscaling-group
//! health, and the values a picker needs to open a remote session on one.

pub mod instance;
pub mod collection;
pub mod discovery;
pub mod laws;
pub mod picker;
pub mod session;
pub mod snapshot;

pub use instance::EC2Instance;
pub use collection::EC2InstanceCollection;
pub use session::SessionManagerParams;
