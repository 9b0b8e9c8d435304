pub mod ditches_streams_svf_slope;
