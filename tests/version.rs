use wgpu_core::adapter::{Adapter, InstanceError};

#[test]
fn test_version_parse() {
    let error = Err(InstanceError);
    assert_eq!(Adapter::parse_version("1"), error);
    assert_eq!(Adapter::parse_version("1."), error);
    assert_eq!(Adapter::parse_version("1 h3l1o. W0rld"), error);
    assert_eq!(Adapter::parse_version("1. h3l1o. W0rld"), error);
    assert_eq!(Adapter::parse_version("1.2.3"), error);
    assert_eq!(Adapter::parse_version("OpenGL ES 3.1"), Ok((3, 1)));
    assert_eq!(
        Adapter::parse_version("OpenGL ES 2.0 Google Nexus"),
        Ok((2, 0))
    );
    assert_eq!(Adapter::parse_version("GLSL ES 1.1"), Ok((1, 1)));
    assert_eq!(Adapter::parse_version("OpenGL ES GLSL ES 3.20"), Ok((3, 2)));
    assert_eq!(
        // WebGL 2.0 should parse as OpenGL ES 3.0
        Adapter::parse_version("WebGL 2.0 (OpenGL ES 3.0 Chromium)"),
        Ok((3, 0))
    );
    assert_eq!(
        Adapter::parse_version("WebGL GLSL ES 3.00 (OpenGL ES GLSL ES 3.0 Chromium)"),
        Ok((3, 0))
    );
}

#[test]
fn version_parse_edge_cases() {
    // A leading plus sign is read as by the standard library.
    assert_eq!(Adapter::parse_version("OpenGL ES +3.1"), Ok((3, 1)));
    // Values past 255 do not fit.
    assert_eq!(Adapter::parse_version("OpenGL ES 300.1"), Err(InstanceError));
    // Trailing zeros of the minor version are dropped, a leading zero reads as 0.
    assert_eq!(Adapter::parse_version("OpenGL ES 3.100"), Ok((3, 1)));
    assert_eq!(Adapter::parse_version("OpenGL ES 3.05"), Ok((3, 0)));
    // The last " ES " counts.
    assert_eq!(Adapter::parse_version("OpenGL ES 9.9 ES 3.2"), Ok((3, 2)));
    // WebGL 1.0 counts as OpenGL ES 2.0.
    assert_eq!(Adapter::parse_version("WebGL 1.0"), Ok((2, 0)));
    assert_eq!(Adapter::parse_version("WebGL 255.0"), Err(InstanceError));
    assert_eq!(Adapter::parse_version(""), Err(InstanceError));
}

use wgpu_core::adapter::{contains, infer_device_type, vendor_id, Backend, DeviceType};

#[test]
fn make_info_lowercases_before_matching() {
    let info = Adapter::make_info("Intel Open Source Technology Center".to_string(), "Mesa DRI Intel(R) HD".to_string());
    assert_eq!(info.device_type, DeviceType::IntegratedGpu);
    assert_eq!(info.vendor, 0x8086);
    assert_eq!(info.device, 0);
    assert_eq!(info.backend, Backend::Gl);
    assert_eq!(info.name, "Mesa DRI Intel(R) HD");

    let info = Adapter::make_info("NVIDIA Corporation".to_string(), "GeForce GTX 1080".to_string());
    assert_eq!(info.device_type, DeviceType::DiscreteGpu);
    assert_eq!(info.vendor, 0x10DE);

    let info = Adapter::make_info("Mesa/X.org".to_string(), "llvmpipe (LLVM 12.0.0, 256 bits)".to_string());
    assert_eq!(info.device_type, DeviceType::Cpu);
    assert_eq!(info.vendor, 0);
}

#[test]
fn device_type_rules() {
    assert_eq!(infer_device_type("ati", "radeon hd 4250"), DeviceType::IntegratedGpu);
    assert_eq!(infer_device_type("qualcomm", "adreno"), DeviceType::IntegratedGpu);
    assert_eq!(infer_device_type("x", "quadro express"), DeviceType::DiscreteGpu);
    assert_eq!(infer_device_type("x", "radeon xpress 200"), DeviceType::IntegratedGpu);
    assert_eq!(infer_device_type("google", "swiftshader device"), DeviceType::Cpu);
    assert_eq!(vendor_id("advanced micro devices, amd"), 0x1002);
    assert_eq!(vendor_id("arm"), 0x13B5);
    assert_eq!(vendor_id("broadcom"), 0x14e4);
    assert_eq!(vendor_id("imgtec"), 0x1010);
    assert!(contains("abcabd", "abd"));
    assert!(!contains("ab", "abc"));
    assert!(contains("x", ""));
}
