use vstd::prelude::*;

verus! {

/// The stages of a compression or decompression.
#[derive(Debug, Clone, Copy, PartialEq, Eq, Structural)]
pub enum ProcessingStage {
    /// Reading the input.
    Reading,
    /// Counting byte frequencies.
    ComputingFrequencies,
    /// Building the Huffman tree.
    BuildingTree,
    /// Encoding with Huffman codes.
    Encoding,
    /// Encrypting the payload.
    Encrypting,
    /// Decrypting the payload.
    Decrypting,
    /// Decoding Huffman codes.
    Decoding,
    /// Writing the output.
    Writing,
    /// Finishing the operation.
    Finalizing,
}

/// The display name of each stage.
pub open spec fn stage_name(stage: ProcessingStage) -> Seq<char> {
    match stage {
        ProcessingStage::Reading => "Reading"@,
        ProcessingStage::ComputingFrequencies => "Computing frequencies"@,
        ProcessingStage::BuildingTree => "Building Huffman tree"@,
        ProcessingStage::Encoding => "Encoding"@,
        ProcessingStage::Encrypting => "Encrypting"@,
        ProcessingStage::Decrypting => "Decrypting"@,
        ProcessingStage::Decoding => "Decoding"@,
        ProcessingStage::Writing => "Writing"@,
        ProcessingStage::Finalizing => "Finalizing"@,
    }
}

impl ProcessingStage {
    /// The display name of the stage.
    pub fn to_string(&self) -> (s: String)
        ensures
            s@ == stage_name(*self),
    {
        match self {
            ProcessingStage::Reading => String::from_str("Reading"),
            ProcessingStage::ComputingFrequencies => String::from_str("Computing frequencies"),
            ProcessingStage::BuildingTree => String::from_str("Building Huffman tree"),
            ProcessingStage::Encoding => String::from_str("Encoding"),
            ProcessingStage::Encrypting => String::from_str("Encrypting"),
            ProcessingStage::Decrypting => String::from_str("Decrypting"),
            ProcessingStage::Decoding => String::from_str("Decoding"),
            ProcessingStage::Writing => String::from_str("Writing"),
            ProcessingStage::Finalizing => String::from_str("Finalizing"),
        }
    }
}

} // verus!
