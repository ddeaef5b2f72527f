pub mod decode;
pub mod episode;
pub mod numstr;
pub mod podcast;
pub mod run;
pub mod tags;
pub mod text;
pub mod value;
