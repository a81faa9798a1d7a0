use vstd::prelude::*;

verus! {

/// The data center a node belongs to when none is configured.
pub const DEFAULT_DATA_CENTER: &'static str = "datacake-dc-unknown";

/// The cluster id a node uses when none is configured.
pub const DEFAULT_CLUSTER_ID: &'static str = "datacake-cluster-unknown";

/// Optional settings of a cluster node.
pub struct ClusterOptions {
    cluster_id: String,
    data_center: String,
}

impl ClusterOptions {
    pub closed spec fn cluster_id_view(&self) -> Seq<char> {
        self.cluster_id@
    }

    pub closed spec fn data_center_view(&self) -> Seq<char> {
        self.data_center@
    }

    /// The defaults: the unknown cluster id and data center.
    pub fn new() -> (r: ClusterOptions)
        ensures
            r.cluster_id_view() == DEFAULT_CLUSTER_ID@,
            r.data_center_view() == DEFAULT_DATA_CENTER@,
    {
        ClusterOptions {
            cluster_id: DEFAULT_CLUSTER_ID.to_owned(),
            data_center: DEFAULT_DATA_CENTER.to_owned(),
        }
    }

    /// Sets the cluster id of the node.
    pub fn with_cluster_id(self, cluster_id: &str) -> (r: ClusterOptions)
        ensures
            r.cluster_id_view() == cluster_id@,
            r.data_center_view() == self.data_center_view(),
    {
        ClusterOptions { cluster_id: cluster_id.to_owned(), data_center: self.data_center }
    }

    /// Sets the data center the node belongs to.
    pub fn with_data_center(self, dc: &str) -> (r: ClusterOptions)
        ensures
            r.data_center_view() == dc@,
            r.cluster_id_view() == self.cluster_id_view(),
    {
        ClusterOptions { cluster_id: self.cluster_id, data_center: dc.to_owned() }
    }

    pub fn cluster_id(&self) -> (r: &str)
        ensures
            r@ == self.cluster_id_view(),
    {
        self.cluster_id.as_str()
    }

    pub fn data_center(&self) -> (r: &str)
        ensures
            r@ == self.data_center_view(),
    {
        self.data_center.as_str()
    }
}

impl Default for ClusterOptions {
    fn default() -> (r: ClusterOptions)
        ensures
            r.cluster_id_view() == DEFAULT_CLUSTER_ID@,
            r.data_center_view() == DEFAULT_DATA_CENTER@,
    {
        ClusterOptions::new()
    }
}

} // verus!
