use omapmaker::inference::contract::{Activation, InvalidPolicy, OutputDescriptor, MANIFEST_SCHEMA_VERSION};
use omapmaker::inference::models::ditches_streams_svf_slope::reflect_index;
use omapmaker::map_gen::common::compute_dfm::{filter_last_returns, ReturnInfo};

#[test]
fn reflection_mirrors_without_repeating_the_edge() {
    // NumPy: np.pad([0, 1, 2, 3], 3, mode="reflect") = [3 2 1 | 0 1 2 3 | 2 1 0]
    let positions: Vec<usize> = (-3..7).map(|index| reflect_index(index, 4)).collect();
    assert_eq!(positions, vec![3, 2, 1, 0, 1, 2, 3, 2, 1, 0]);
    assert_eq!(reflect_index(-1, 2), 1);
    assert_eq!(reflect_index(5, 2), 1);
    for index in 0..4 {
        assert_eq!(reflect_index(index, 4), index as usize);
        assert_eq!(reflect_index(-index, 4), reflect_index(index, 4));
    }
}

#[test]
fn only_last_returns_are_kept() {
    let points = vec![
        ReturnInfo { return_number: 1, number_of_returns: 1 },
        ReturnInfo { return_number: 1, number_of_returns: 2 },
        ReturnInfo { return_number: 2, number_of_returns: 2 },
        ReturnInfo { return_number: 0, number_of_returns: 0 },
        ReturnInfo { return_number: 3, number_of_returns: 3 },
    ];
    assert_eq!(filter_last_returns(&points), vec![0, 2, 4]);
    assert!(filter_last_returns(&Vec::new()).is_empty());
}

#[test]
fn output_contract_holds_its_shape() {
    let output = OutputDescriptor { width: 256, height: 128, channels: &["stream"], activation: Activation::Sigmoid };
    assert_eq!(output.width * output.height, 32768);
    assert_eq!(output.channels, &["stream"]);
    assert_eq!(output.activation, Activation::Sigmoid);
    assert_ne!(Activation::Identity, Activation::Softmax);
    assert_eq!(InvalidPolicy::RejectTile, InvalidPolicy::RejectTile);
    assert_eq!(MANIFEST_SCHEMA_VERSION, 1);
}
