pub mod connectivity;
