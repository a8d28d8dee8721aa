use vstd::prelude::*;

verus! {

/// One record of the count table: a layer name together with the number of
/// features counted in that layer.
#[derive(Debug, PartialEq, Eq)]
pub struct LayerCount {
    pub layer: String,
    pub count: u64,
}

/// The mathematical value of a `LayerCount`: the name as a character
/// sequence, and the count.
pub ghost struct LayerCountV {
    pub layer: Seq<char>,
    pub count: u64,
}

impl View for LayerCount {
    type V = LayerCountV;

    open spec fn view(&self) -> LayerCountV {
        LayerCountV { layer: self.layer@, count: self.count }
    }
}

impl LayerCount {
    pub fn new(layer: String, count: u64) -> (r: LayerCount)
        ensures
            r@ == (LayerCountV { layer: layer@, count }),
    {
        LayerCount { layer, count }
    }
}

impl Clone for LayerCount {
    fn clone(&self) -> (r: LayerCount)
        ensures
            r@ == self@,
    {
        LayerCount { layer: self.layer.clone(), count: self.count }
    }
}

/// An ordered collection of per-layer counts, in discovery order: the order
/// in which a driver enumerated the layers, or the row order of a parsed
/// document. The type itself neither sorts nor deduplicates.
#[derive(Debug, PartialEq)]
pub struct DatasetCount(pub Vec<LayerCount>);

impl View for DatasetCount {
    type V = Seq<LayerCountV>;

    open spec fn view(&self) -> Seq<LayerCountV> {
        self.0@.map_values(|lc: LayerCount| lc@)
    }
}

impl DatasetCount {
    /// An empty collection, ready to be filled.
    pub fn new() -> (r: DatasetCount)
        ensures
            r@ =~= Seq::<LayerCountV>::empty(),
    {
        DatasetCount(Vec::new())
    }

    /// Wrap an already-built list of records, keeping its order.
    pub fn from_vec(v: Vec<LayerCount>) -> (r: DatasetCount)
        ensures
            r@ == v@.map_values(|lc: LayerCount| lc@),
    {
        DatasetCount(v)
    }

    /// Append one record at the end.
    pub fn push(&mut self, lc: LayerCount)
        ensures
            final(self)@ =~= old(self)@.push(lc@),
    {
        self.0.push(lc);
    }

    pub fn len(&self) -> (n: usize)
        ensures
            n == self@.len(),
    {
        self.0.len()
    }
}

impl From<Vec<LayerCount>> for DatasetCount {
    fn from(v: Vec<LayerCount>) -> (r: DatasetCount) {
        DatasetCount(v)
    }
}

impl vstd::std_specs::convert::FromSpecImpl<Vec<LayerCount>> for DatasetCount {
    open spec fn obeys_from_spec() -> bool {
        true
    }

    open spec fn from_spec(v: Vec<LayerCount>) -> DatasetCount {
        DatasetCount(v)
    }
}

} // verus!
