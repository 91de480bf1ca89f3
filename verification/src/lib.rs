pub mod args_parse;
pub mod canny;
pub mod clockwise;
pub mod cnc;
pub mod command;
pub mod coordinate;
pub mod decimal;
pub mod marking;
pub mod raster;
pub mod replay;
pub mod scan;
pub mod text;
pub mod trace;
pub mod tracer;
