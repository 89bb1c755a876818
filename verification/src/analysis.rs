pub mod analyser;
